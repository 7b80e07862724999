//! What holds of the faults that are injected.
use vstd::prelude::*;
use crate::fault::{due, due_bounds, mixed, queued, rolled, stepped, DatagramView, FaultView};
use crate::transfer::since;

verus! {

/// A roll hits for as many of the hundred remainders of the number drawn as the
/// percentage says; one that is certain draws no number. What hits at one
/// percentage hits at every higher one.
pub proof fn rolls_hit_by_percentage(state: u64, pct: u32, higher: u32)
    requires
        pct <= higher,
    ensures
        rolled(state, pct).1 == (mixed(stepped(state)) % 100 < pct),
        rolled(state, pct).1 ==> rolled(state, higher).1,
        rolled(state, 0) == (state, false),
        pct >= 100 ==> rolled(state, pct) == (state, true),
        0 < pct < 100 ==> rolled(state, pct).0 == stepped(state),
{
}

/// Whether nothing delays, repeats, reorders or bursts.
pub open spec fn only_drops(v: FaultView) -> bool {
    &&& v.config.dup_pct == 0
    &&& v.config.reorder_pct == 0
    &&& v.config.delay_ms == 0
    &&& v.config.burst_every_ms == 0
}

/// With nothing but losses a datagram goes out unless its roll hits, and then it
/// is counted as dropped.
pub proof fn losses_are_counted(v: FaultView, d: DatagramView, now: u128)
    requires
        only_drops(v),
        v.held is None,
    ensures
        ({
            let (w, out) = v.sent(d, now);
            &&& if rolled(v.rng, v.config.drop_pct).1 {
                &&& out.len() == 0
                &&& w.stats.dropped == (v.stats.dropped + 1) % 0x1_0000_0000_0000_0000
            } else {
                &&& out == seq![d]
                &&& w.stats.dropped == v.stats.dropped
            }
            &&& w.delayed == v.delayed
            &&& w.held == v.held
        }),
{
    reveal(FaultView::sent);
    reveal(FaultView::piped);
}

/// In the part of each period that is given over to a burst everything is
/// dropped, and counted.
pub proof fn bursts_drop_everything(v: FaultView, d: DatagramView, now: u128)
    requires
        v.config.burst_every_ms != 0,
        now >= v.started,
        (now - v.started) / 1_000_000 <= u64::MAX,
    ensures
        ({
            let ms = (now - v.started) / 1_000_000;
            let burst = ms % (v.config.burst_every_ms as int) < v.config.burst_dur_ms;
            &&& v.in_burst(now) == burst
            &&& burst ==> {
                let (w, out) = v.sent(d, now);
                &&& out.len() == 0
                &&& w == (FaultView { stats: w.stats, ..v })
                &&& w.stats.dropped == (v.stats.dropped + 1) % 0x1_0000_0000_0000_0000
                &&& w.stats.emitted == v.stats.emitted
            }
        }),
{
    reveal(FaultView::sent);
}

/// Whether a datagram went out, waits for its time, or is held back.
pub open spec fn is_somewhere(
    w: FaultView,
    out: Seq<DatagramView>,
    d: DatagramView,
) -> bool {
    ||| out.contains(d)
    ||| exists|i: int| 0 <= i < w.delayed.len() && (#[trigger] w.delayed[i]).1 == d
    ||| w.held matches Some(h) && h.1 == d
}

proof fn copies_are_kept(v: FaultView, d: DatagramView, now: u128)
    requires
        v.config.drop_pct == 0,
    ensures
        ({
            let (w, out) = v.copied(d, now);
            &&& if v.config.delay_ms > 0 {
                &&& out.len() == 0
                &&& w.delayed == v.delayed.push(
                    (crate::transfer::after(now, v.config.delay_ms * 1_000_000), d),
                )
            } else {
                &&& out == seq![d]
                &&& w.delayed == v.delayed
            }
            &&& w.config == v.config
            &&& w.held == v.held
            &&& w.stats == v.stats
        }),
{
}

/// One or two copies are made, and without losses each goes out at once, or
/// waits out the delay behind what waits already.
proof fn pipes_keep(v: FaultView, d: DatagramView, now: u128)
    requires
        v.config.drop_pct == 0,
    ensures
        ({
            let (w, out) = v.piped(d, now);
            let twice = rolled(v.rng, v.config.dup_pct).1;
            let when = crate::transfer::after(now, v.config.delay_ms * 1_000_000);
            &&& if v.config.delay_ms > 0 {
                &&& out.len() == 0
                &&& w.delayed == if twice {
                    v.delayed.push((when, d)).push((when, d))
                } else {
                    v.delayed.push((when, d))
                }
            } else {
                &&& out == if twice {
                    seq![d, d]
                } else {
                    seq![d]
                }
                &&& w.delayed == v.delayed
            }
            &&& w.config == v.config
            &&& w.held == v.held
            &&& w.stats == v.stats
        }),
{
    reveal(FaultView::piped);
    let (rng, twice) = rolled(v.rng, v.config.dup_pct);
    let u = FaultView { rng, ..v };
    copies_are_kept(u, d, now);
    let (x, first) = u.copied(d, now);
    copies_are_kept(x, d, now);
    assert(seq![d] + seq![d] =~= seq![d, d]);
    assert(Seq::<DatagramView>::empty() + Seq::<DatagramView>::empty() =~= Seq::<
        DatagramView,
    >::empty());
}

/// Without losses and bursts nothing is lost and nothing is dropped: a datagram
/// that is handed in goes out, waits, or is held back, and one that was held
/// back before goes out or waits behind it.
pub proof fn nothing_is_lost_without_losses(v: FaultView, d: DatagramView, now: u128)
    requires
        v.config.drop_pct == 0,
        v.config.burst_every_ms == 0,
    ensures
        ({
            let (w, out) = v.sent(d, now);
            &&& is_somewhere(w, out, d)
            &&& v.held is Some && v.config.reorder_pct > 0 ==> is_somewhere(
                w,
                out,
                v.held.unwrap().1,
            )
            &&& w.stats == v.stats
        }),
{
    reveal(FaultView::sent);
    let (w, out) = v.sent(d, now);
    if v.config.reorder_pct > 0 && v.held is Some {
        let h = v.held.unwrap().1;
        let free = FaultView { held: None, ..v };
        pipes_keep(free, d, now);
        let (x, first) = free.piped(d, now);
        pipes_keep(x, h, now);
        let (y, second) = x.piped(h, now);
        if v.config.delay_ms > 0 {
            let n = v.delayed.len() as int;
            assert(y.delayed[n].1 == d);
            assert(y.delayed[x.delayed.len() as int].1 == h);
        } else {
            assert(out[0] == d);
            assert(out[first.len() as int] == h);
        }
    } else {
        let (rng, hold) = rolled(v.rng, v.config.reorder_pct);
        let u = FaultView { rng, ..v };
        pipes_keep(u, d, now);
        if !hold {
            if v.config.delay_ms > 0 {
                assert(w.delayed[v.delayed.len() as int].1 == d);
            } else {
                assert(out[0] == d);
            }
        }
    }
}

/// With nothing but repetition a datagram goes out twice if its roll hits, else
/// once.
pub proof fn repetition_sends_twice(v: FaultView, d: DatagramView, now: u128)
    requires
        v.config.drop_pct == 0,
        v.config.burst_every_ms == 0,
        v.config.reorder_pct == 0,
        v.config.delay_ms == 0,
    ensures
        v.sent(d, now).1 == if rolled(v.rng, v.config.dup_pct).1 {
            seq![d, d]
        } else {
            seq![d]
        },
{
    reveal(FaultView::sent);
    pipes_keep(v, d, now);
}

/// With nothing but a delay a datagram waits behind what waits already, until
/// its time has come.
pub proof fn delays_queue_up(v: FaultView, d: DatagramView, now: u128)
    requires
        v.config.drop_pct == 0,
        v.config.dup_pct == 0,
        v.config.burst_every_ms == 0,
        v.config.reorder_pct == 0,
        v.config.delay_ms > 0,
        now <= u128::MAX - 0x1_0000_0000_0000_0000_0000_0000,
    ensures
        ({
            let (w, out) = v.sent(d, now);
            &&& out.len() == 0
            &&& w.delayed == v.delayed.push(
                ((now + v.config.delay_ms * 1_000_000) as u128, d),
            )
        }),
{
    reveal(FaultView::sent);
    pipes_keep(v, d, now);
}

/// A datagram that is held back goes out behind the next one: the two change
/// places.
pub proof fn reordering_swaps(v: FaultView, first: DatagramView, second: DatagramView, t: u128, now: u128)
    requires
        v.config.drop_pct == 0,
        v.config.dup_pct == 0,
        v.config.burst_every_ms == 0,
        v.config.delay_ms == 0,
        v.config.reorder_pct > 0,
        v.held is None,
    ensures
        ({
            let (w, out) = v.sent(first, t);
            if rolled(v.rng, v.config.reorder_pct).1 {
                &&& out.len() == 0
                &&& w.held == Some((t, first))
                &&& w.sent(second, now).1 == seq![second, first]
                &&& w.sent(second, now).0.held is None
            } else {
                out == seq![first]
            }
        }),
{
    reveal(FaultView::sent);
    let (rng, hold) = rolled(v.rng, v.config.reorder_pct);
    let u = FaultView { rng, ..v };
    pipes_keep(u, first, t);
    if hold {
        let free = FaultView { held: None, ..u };
        pipes_keep(free, second, now);
        let x = free.piped(second, now).0;
        pipes_keep(x, first, now);
        assert(seq![second] + seq![first] =~= seq![second, first]);
    }
}

/// What has waited out its delay goes out in the order in which it came, what
/// has not keeps waiting, and what has been held back for 50 ms goes out behind
/// them.
pub proof fn waiting_datagrams_are_released(v: FaultView, now: u128)
    ensures
        ({
            let w = v.drained(now);
            let n = v.delayed.len() - w.delayed.len();
            let ripe = v.held matches Some(h) && since(now, h.0) >= 50_000_000;
            &&& 0 <= n <= v.delayed.len()
            &&& w.delayed == v.delayed.skip(n)
            &&& forall|i: int| 0 <= i < n ==> (#[trigger] v.delayed[i]).0 <= now
            &&& w.delayed.len() > 0 ==> w.delayed[0].0 > now
            &&& w.held == if ripe {
                None
            } else {
                v.held
            }
            &&& v.released(now) == queued(v.delayed.take(n)) + if ripe {
                seq![v.held.unwrap().1]
            } else {
                Seq::empty()
            }
            &&& forall|i: int|
                0 <= i < n ==> #[trigger] queued(v.delayed.take(n))[i] == v.delayed[i].1
            &&& w.stats == v.stats && w.rng == v.rng
        }),
{
    due_bounds(v.delayed, now);
    let n = due(v.delayed, now) as int;
    let out = queued(v.delayed.take(n));
    if v.held is Some && since(now, v.held.unwrap().0) >= 50_000_000 {
        assert(v.released(now) =~= out + seq![v.held.unwrap().1]);
    } else {
        assert(v.released(now) =~= out + Seq::empty());
    }
}

/// Whether two injectors differ in their counters at most.
pub open spec fn are_alike(v: FaultView, w: FaultView) -> bool {
    w == (FaultView { stats: w.stats, ..v })
}

proof fn pipes_act_alike(v: FaultView, w: FaultView, d: DatagramView, now: u128)
    requires
        are_alike(v, w),
    ensures
        v.piped(d, now).1 == w.piped(d, now).1,
        are_alike(v.piped(d, now).0, w.piped(d, now).0),
{
    reveal(FaultView::piped);
}

/// The same seed and the same datagrams at the same times give the same faults:
/// two injectors that differ in their counters only act alike.
pub proof fn faults_are_repeatable(v: FaultView, w: FaultView, d: DatagramView, now: u128)
    requires
        are_alike(v, w),
    ensures
        v.sent(d, now).1 == w.sent(d, now).1,
        are_alike(v.sent(d, now).0, w.sent(d, now).0),
{
    reveal(FaultView::sent);
    if !v.in_burst(now) {
        if v.config.reorder_pct > 0 && v.held is Some {
            let a = FaultView { held: None, ..v };
            let b = FaultView { held: None, ..w };
            pipes_act_alike(a, b, d, now);
            pipes_act_alike(a.piped(d, now).0, b.piped(d, now).0, v.held.unwrap().1, now);
        } else {
            let rng = rolled(v.rng, v.config.reorder_pct).0;
            pipes_act_alike(FaultView { rng, ..v }, FaultView { rng, ..w }, d, now);
        }
    }
}

} // verus!
