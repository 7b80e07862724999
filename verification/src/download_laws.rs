//! What holds of a download from its first packet to its last.
use vstd::prelude::*;
use crate::endpoint::Endpoint;
use crate::protocol::MessageView;
use crate::receiver::{all_received, assembled_is_file, faithful, ReceiverView, StepView};
use crate::sender::packet;
use crate::transfer::{
    after, millis, packets_for, smaller, Settings, INITIAL_WINDOW, SEGMENT_PACKET_SIZE,
};

verus! {

/// A packet that comes: its number, and when.
pub type Arrival = (u16, u128);

/// A download and its steps after packets of a file have come. What is to be
/// saved is saved.
pub open spec fn downloaded(
    v: ReceiverView,
    s: Settings,
    file: Seq<u8>,
    arrivals: Seq<Arrival>,
) -> (ReceiverView, Seq<StepView>)
    decreases arrivals.len(),
{
    if arrivals.len() == 0 {
        (v, Seq::empty())
    } else {
        let (w, steps) = downloaded(v, s, file, arrivals.drop_last());
        let (k, now) = arrivals.last();
        let n = packets_for(file.len() as int) as u16;
        let (x, step) = w.content(s, k, n, packet(file, k as int), now);
        (
            if step is Save {
                x.saved(now)
            } else {
                x
            },
            steps.push(step),
        )
    }
}

/// Whether a packet lies in the range that a download of `n` packets asks for.
/// Before the first packet that is the first window.
pub open spec fn is_wanted(v: ReceiverView, n: int, k: u16) -> bool {
    let (start, count) = if v.total is None {
        (1u16, smaller(INITIAL_WINDOW as int, n) as u16)
    } else {
        v.range->0
    };
    start <= k < start + count
}

/// Whether the packet that comes at position `i` is packet `k`, and wanted.
pub open spec fn lands(
    v: ReceiverView,
    s: Settings,
    file: Seq<u8>,
    arrivals: Seq<Arrival>,
    i: int,
    k: u16,
) -> bool {
    &&& 0 <= i < arrivals.len()
    &&& arrivals[i].0 == k
    &&& is_wanted(
        downloaded(v, s, file, arrivals.take(i)).0,
        packets_for(file.len() as int),
        k,
    )
}

/// Whether packet `k` comes at least once while it is wanted.
pub open spec fn comes_in_range(
    v: ReceiverView,
    s: Settings,
    file: Seq<u8>,
    arrivals: Seq<Arrival>,
    k: u16,
) -> bool {
    exists|i: int| #[trigger] lands(v, s, file, arrivals, i, k)
}

/// Whether the only step that saves is the one at `i`, it saves the file, and
/// every later one repeats the final word.
pub open spec fn saves_once(
    steps: Seq<StepView>,
    file: Seq<u8>,
    last_word: StepView,
    i: int,
) -> bool {
    &&& 0 <= i < steps.len()
    &&& steps[i] == StepView::Save(file)
    &&& forall|j: int| 0 <= j < i ==> !((#[trigger] steps[j]) is Save)
    &&& forall|j: int| i < j < steps.len() ==> #[trigger] steps[j] == last_word
}

/// What every state of a download keeps.
spec fn in_order(w: ReceiverView, file: Seq<u8>) -> bool {
    &&& faithful(w, file)
    &&& w.total is None ==> w.outcome is None
    &&& w.total is Some ==> w.range is Some
    &&& w.outcome is None && w.total is Some ==> !all_received(w.parts)
}

/// What holds once the file is saved.
spec fn is_done(w: ReceiverView, file: Seq<u8>) -> bool {
    &&& w.outcome == Some(Ok::<(), Seq<char>>(()))
    &&& w.saved_bytes == Some(file.len() as u64)
}

proof fn one_packet(w: ReceiverView, s: Settings, file: Seq<u8>, k: u16, now: u128)
    requires
        in_order(w, file),
        w.outcome is None,
        file.len() <= 0xffff * SEGMENT_PACKET_SIZE,
        1 <= k <= packets_for(file.len() as int),
    ensures
        ({
            let n = packets_for(file.len() as int);
            let (x, step) = w.content(s, k, n as u16, packet(file, k as int), now);
            &&& x.transfer_id == w.transfer_id
            &&& x.total is Some
            &&& step is Save ==> step == StepView::Save(file) && is_done(x.saved(now), file)
                && in_order(x.saved(now), file)
            &&& !(step is Save) ==> in_order(x, file) && x.outcome is None
            &&& !(step is Save) && is_wanted(w, n, k) ==> x.parts[k - 1] is Some
            &&& !(step is Save) && w.total is Some ==> forall|j: int|
                1 <= j <= n && w.parts[j - 1] is Some ==> (#[trigger] x.parts[j - 1]) is Some
        }),
{
    let n = packets_for(file.len() as int);
    let v = if w.total is None {
        w.opened(s, n as u16, now)
    } else {
        w
    };
    let data = packet(file, k as int);
    let (x, step) = w.content(s, k, n as u16, data, now);
    assert(v.parts.len() == n);
    if w.total is None {
        assert(v.parts[0] is None);
        assert(!all_received(v.parts)) by {
            assert(v.parts[1 - 1] is None);
        }
    }
    let (start, count) = v.range->0;
    if start <= k < start + count && v.parts[k - 1] is None {
        let y = v.stored(s, k, data, now);
        assert forall|j: int|
            1 <= j <= y.parts.len() && (#[trigger] y.parts[j - 1]) is Some implies y.parts[j - 1]
            == Some(packet(file, j)) by {
            if j != k {
                assert(y.parts[j - 1] == v.parts[j - 1]);
            }
        }
        assert(faithful(y, file));
        if all_received(y.parts) {
            assert forall|j: int| 1 <= j <= y.parts.len() implies #[trigger] y.parts[j - 1] == Some(
                packet(file, j),
            ) by {
                assert(y.parts[j - 1] is Some);
            }
            assembled_is_file(file, y.parts);
        }
    }
}

proof fn download_goes_on(v: ReceiverView, s: Settings, file: Seq<u8>, arrivals: Seq<Arrival>)
    requires
        v.total is None,
        v.outcome is None,
        v.parts.len() == 0,
        file.len() <= 0xffff * SEGMENT_PACKET_SIZE,
        forall|i: int|
            0 <= i < arrivals.len() ==> 1 <= (#[trigger] arrivals[i]).0 <= packets_for(
                file.len() as int,
            ),
    ensures
        ({
            let (w, steps) = downloaded(v, s, file, arrivals);
            &&& steps.len() == arrivals.len()
            &&& w.transfer_id == v.transfer_id
            &&& in_order(w, file)
            &&& w.outcome is Some ==> is_done(w, file) && exists|i: int| #[trigger]
                saves_once(steps, file, StepView::Reply(v.complete()), i)
            &&& w.outcome is None ==> forall|j: int|
                0 <= j < steps.len() ==> !((#[trigger] steps[j]) is Save)
            &&& w.outcome is None ==> forall|k: u16| #[trigger]
                comes_in_range(v, s, file, arrivals, k) ==> w.total is Some && w.parts[k - 1] is Some
        }),
    decreases arrivals.len(),
{
    if arrivals.len() > 0 {
        let front = arrivals.drop_last();
        assert forall|i: int| 0 <= i < front.len() implies 1 <= (#[trigger] front[i]).0
            <= packets_for(file.len() as int) by {
            assert(front[i] == arrivals[i]);
        }
        download_goes_on(v, s, file, front);
        let (w, before) = downloaded(v, s, file, front);
        let (x, steps) = downloaded(v, s, file, arrivals);
        let m = front.len() as int;
        let (k, now) = arrivals[m];
        let word = StepView::Reply(v.complete());
        assert forall|j: int| 0 <= j < m implies #[trigger] steps[j] == before[j] by {}
        if w.outcome is Some {
            let i = choose|i: int| #[trigger] saves_once(before, file, word, i);
            assert(steps[m] == word);
            assert(saves_once(steps, file, word, i));
        } else {
            one_packet(w, s, file, k, now);
            if steps[m] is Save {
                assert(saves_once(steps, file, word, m));
            } else {
                assert forall|q: u16| #[trigger]
                    comes_in_range(v, s, file, arrivals, q) implies x.total is Some && x.parts[q
                    - 1] is Some by {
                    let i = choose|i: int| #[trigger] lands(v, s, file, arrivals, i, q);
                    if i < m {
                        assert(front.take(i) =~= arrivals.take(i));
                        assert(lands(v, s, file, front, i, q));
                        assert(comes_in_range(v, s, file, front, q));
                        assert(1 <= arrivals[i].0 <= packets_for(file.len() as int));
                        let j = q as int;
                        assert(w.parts[j - 1] is Some);
                        assert(x.parts[j - 1] is Some);
                    } else {
                        assert(arrivals.take(m) =~= front);
                    }
                }
            }
        }
    } else {
        assert forall|k: u16| !(#[trigger] comes_in_range(v, s, file, arrivals, k)) by {}
    }
}

/// A download that gets every packet of a file at least once while it asks for
/// it, in whatever order, with duplicates and with packets that it does not ask
/// for in between, saves the file, byte for byte and once, and answers every
/// packet after that with the final word.
pub proof fn download_completes(
    transfer_id: u16,
    remote: Endpoint,
    filename: Seq<char>,
    s: Settings,
    started_at: u128,
    file: Seq<u8>,
    arrivals: Seq<Arrival>,
)
    requires
        file.len() <= 0xffff * SEGMENT_PACKET_SIZE,
        forall|i: int|
            0 <= i < arrivals.len() ==> 1 <= (#[trigger] arrivals[i]).0 <= packets_for(
                file.len() as int,
            ),
        forall|k: u16|
            1 <= k <= packets_for(file.len() as int) ==> #[trigger] comes_in_range(
                ReceiverView::started(transfer_id, remote, filename, s, started_at),
                s,
                file,
                arrivals,
                k,
            ),
    ensures
        ({
            let v = ReceiverView::started(transfer_id, remote, filename, s, started_at);
            let (w, steps) = downloaded(v, s, file, arrivals);
            &&& w.outcome == Some(Ok::<(), Seq<char>>(()))
            &&& w.saved_bytes == Some(file.len() as u64)
            &&& steps.len() == arrivals.len()
            &&& exists|i: int| #[trigger]
                saves_once(steps, file, StepView::Reply(v.complete()), i)
        }),
{
    let v = ReceiverView::started(transfer_id, remote, filename, s, started_at);
    let (w, steps) = downloaded(v, s, file, arrivals);
    let n = packets_for(file.len() as int);
    download_goes_on(v, s, file, arrivals);
    if w.outcome is None {
        assert(comes_in_range(v, s, file, arrivals, 1));
        assert forall|k: int| 1 <= k < 1 + w.parts.len() implies (
        #[trigger] w.parts[k - 1]) is Some by {
            assert(comes_in_range(v, s, file, arrivals, k as u16));
        }
        assert(all_received(w.parts));
    }
}

/// A download and what it has sent after ticks at the given times, with nothing
/// coming in between.
pub open spec fn left_alone(v: ReceiverView, s: Settings, times: Seq<u128>) -> (
    ReceiverView,
    Seq<MessageView>,
)
    decreases times.len(),
{
    if times.len() == 0 {
        (v, Seq::empty())
    } else {
        let (w, sent) = left_alone(v, s, times.drop_last());
        (w.ticked(s, times.last()), sent + w.tick_sends(s, times.last()))
    }
}

/// Whether the ticks have reached half the time for a first response.
spec fn half_is_over(v: ReceiverView, s: Settings, times: Seq<u128>) -> bool {
    times.len() > 0 && times.last() >= after(v.started_at, millis(s.first_timeout_ms) / 2)
}

proof fn waiting_goes_on(v: ReceiverView, s: Settings, times: Seq<u128>)
    requires
        v.outcome is None,
        v.received == 0,
        v.range is None,
        !v.request_resent,
        v.first_response_deadline == after(v.started_at, millis(s.first_timeout_ms)),
        forall|i: int, j: int| 0 <= i <= j < times.len() ==> times[i] <= times[j],
    ensures
        ({
            let (w, sent) = left_alone(v, s, times);
            &&& w.received == 0
            &&& w.range is None
            &&& w.transfer_id == v.transfer_id
            &&& w.filename == v.filename
            &&& w.remote == v.remote
            &&& w.started_at == v.started_at
            &&& w.request_resent == half_is_over(v, s, times)
            &&& sent == if half_is_over(v, s, times) {
                seq![v.request()]
            } else {
                Seq::empty()
            }
            &&& w.outcome is Some ==> w.unresponsive && w.outcome == Some(
                Err::<(), Seq<char>>(v.no_response_text()),
            ) && half_is_over(v, s, times)
            &&& w.outcome is None && !w.request_resent ==> w.first_response_deadline == after(
                v.started_at,
                millis(s.first_timeout_ms),
            )
            &&& forall|i: int|
                0 <= i < times.len() && half_is_over(v, s, times.take(i + 1)) && w.outcome is None
                    ==> w.first_response_deadline <= after(
                    #[trigger] times[i],
                    millis(s.first_timeout_ms),
                )
            &&& forall|i: int|
                0 <= i < times.len() - 1 && half_is_over(v, s, times.take(i + 1)) && times.last()
                    >= after(#[trigger] times[i], millis(s.first_timeout_ms)) ==> w.outcome is Some
        }),
    decreases times.len(),
{
    if times.len() > 0 {
        let front = times.drop_last();
        assert forall|i: int, j: int| 0 <= i <= j < front.len() implies front[i] <= front[j] by {
            assert(times[i] <= times[j]);
        }
        waiting_goes_on(v, s, front);
        let (w, sent) = left_alone(v, s, front);
        let (x, all) = left_alone(v, s, times);
        let now = times.last();
        if front.len() > 0 {
            assert(times[front.len() - 1] <= times[times.len() - 1]);
        }
        assert forall|i: int| 0 <= i < front.len() implies times.take(i + 1) == front.take(i + 1)
            && #[trigger] times[i] == front[i] by {
            assert(times.take(i + 1) =~= front.take(i + 1));
        }
        assert(times.take(times.len() as int) =~= times);
        assert forall|i: int|
            0 <= i < times.len() && half_is_over(v, s, times.take(i + 1)) && x.outcome is None
            implies x.first_response_deadline <= after(
            #[trigger] times[i],
            millis(s.first_timeout_ms),
        ) by {
            if i < front.len() {
                assert(front[i] <= front[front.len() - 1]);
                assert(half_is_over(v, s, front));
            } else if half_is_over(v, s, front) {
                let last = front.len() - 1;
                assert(front.take(last + 1) =~= front);
                assert(times[last] <= times[i]);
            }
        }
        assert forall|i: int|
            0 <= i < times.len() - 1 && half_is_over(v, s, times.take(i + 1)) && now >= after(
                #[trigger] times[i],
                millis(s.first_timeout_ms),
            ) implies x.outcome is Some by {
            assert(front[i] <= front[front.len() - 1]);
            assert(half_is_over(v, s, front));
        }
        assert(all =~= if half_is_over(v, s, times) {
            seq![v.request()]
        } else {
            Seq::empty()
        });
    }
}

/// A download to which nothing ever comes repeats its request once at most, at
/// the first tick at which half the time for a first response is over; and the
/// time for a first response after that, at the latest, it has failed for want
/// of a response.
pub proof fn silent_download_ends(
    transfer_id: u16,
    remote: Endpoint,
    filename: Seq<char>,
    s: Settings,
    started_at: u128,
    times: Seq<u128>,
)
    requires
        forall|i: int, j: int| 0 <= i <= j < times.len() ==> times[i] <= times[j],
    ensures
        ({
            let v = ReceiverView::started(transfer_id, remote, filename, s, started_at);
            let wait = millis(s.first_timeout_ms);
            let (w, sent) = left_alone(v, s, times);
            &&& sent == if times.len() > 0 && times.last() >= after(started_at, wait / 2) {
                seq![v.request()]
            } else {
                Seq::empty()
            }
            &&& w.outcome is Some ==> w.unresponsive && w.outcome == Some(
                Err::<(), Seq<char>>(v.no_response_text()),
            )
            &&& forall|i: int|
                0 <= i < times.len() - 1 && #[trigger] times[i] >= after(started_at, wait / 2)
                    && times.last() >= after(times[i], wait) ==> w.outcome is Some
        }),
{
    let v = ReceiverView::started(transfer_id, remote, filename, s, started_at);
    let wait = millis(s.first_timeout_ms);
    waiting_goes_on(v, s, times);
    assert forall|i: int|
        0 <= i < times.len() - 1 && #[trigger] times[i] >= after(started_at, wait / 2)
            && times.last() >= after(times[i], wait) implies left_alone(v, s, times).0.outcome
        is Some by {
        assert(times.take(i + 1).last() == times[i]);
    }
}

} // verus!
