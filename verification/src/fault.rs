//! Deterministic fault injection for the outgoing datagram path.
//!
//! Rolls are independent per datagram (Bernoulli), so effective loss is
//! binomially distributed like a real link. Applied to all outgoing datagrams
//! (control + data), as a bad link would.
use std::collections::VecDeque;
use vstd::prelude::*;
use vstd::std_specs::vecdeque::VecDequeAdditionalSpecFns;
use crate::endpoint::Endpoint;
use crate::text::{decimal, push_decimal, push_text, string_of};
use crate::transfer::{after, elapsed, later, millis, milliseconds, setting, setting_of, since};

verus! {

/// How long a datagram is held back at most, in nanoseconds.
pub const HOLD_MAX: u128 = 50_000_000;

/// `SystemTime::elapsed` of `UNIX_EPOCH`: the time since the start of 1970 by
/// the system's clock, in nanoseconds; nothing where the clock stands before.
/// The value depends on the moment of the call, so nothing is claimed of it.
#[verifier::external_body]
fn clock() -> (nanos: Option<u128>) {
    match std::time::UNIX_EPOCH.elapsed() {
        Ok(d) => Some(d.as_nanos()),
        Err(_) => None,
    }
}

/// The seed to use for a wanted one: 0 asks for one from the clock.
pub open spec fn seeded(seed: u64, clock: Option<u128>) -> u64 {
    if seed != 0 {
        seed
    } else {
        match clock {
            Some(nanos) => (nanos % 0x1_0000_0000_0000_0000) as u64,
            None => 1,
        }
    }
}

/// The seed to use for a wanted one.
pub fn seed_from(seed: u64, clock: Option<u128>) -> (r: u64)
    ensures
        r == seeded(seed, clock),
{
    if seed != 0 {
        return seed;
    }
    match clock {
        Some(nanos) => (nanos % 0x1_0000_0000_0000_0000) as u64,
        None => 1,
    }
}

/// The generator's state after one step.
pub open spec fn stepped(state: u64) -> u64 {
    ((state + 0x9E37_79B9_7F4A_7C15u64) % 0x1_0000_0000_0000_0000) as u64
}

/// The product of two numbers, its lowest 64 bits.
pub open spec fn low_product(a: u64, b: u64) -> u64 {
    ((a * b) % 0x1_0000_0000_0000_0000) as u64
}

/// The number that a state yields (SplitMix64).
pub open spec fn mixed(state: u64) -> u64 {
    let a = low_product(state ^ (state >> 30), 0xBF58_476D_1CE4_E5B9);
    let b = low_product(a ^ (a >> 27), 0x94D0_49BB_1331_11EB);
    b ^ (b >> 31)
}

/// The generator's state after a roll, and whether the roll hit. What is
/// certain takes no number.
pub open spec fn rolled(state: u64, pct: u32) -> (u64, bool) {
    if pct >= 100 {
        (state, true)
    } else if pct == 0 {
        (state, false)
    } else {
        (stepped(state), mixed(stepped(state)) % 100 < pct)
    }
}

/// The first `n` numbers that a seed yields.
pub open spec fn numbers(seed: u64, n: nat) -> Seq<u64>
    decreases n,
{
    if n == 0 {
        Seq::empty()
    } else {
        seq![mixed(stepped(seed))] + numbers(stepped(seed), (n - 1) as nat)
    }
}

proof fn numbers_len(seed: u64, n: nat)
    ensures
        numbers(seed, n).len() == n,
    decreases n,
{
    if n > 0 {
        numbers_len(stepped(seed), (n - 1) as nat);
    }
}

/// The numbers do not depend on how many are drawn: a longer run begins with
/// the shorter one.
pub proof fn numbers_are_fixed(seed: u64, n: nat, m: nat)
    requires
        n <= m,
    ensures
        numbers(seed, n).len() == n,
        numbers(seed, m).take(n as int) == numbers(seed, n),
    decreases n,
{
    if n > 0 {
        numbers_are_fixed(stepped(seed), (n - 1) as nat, (m - 1) as nat);
        numbers_len(stepped(seed), (m - 1) as nat);
        let rest = numbers(stepped(seed), (m - 1) as nat);
        assert(numbers(seed, m).take(n as int) =~= seq![mixed(stepped(seed))] + rest.take(n - 1));
    } else {
        assert(numbers(seed, m).take(0) =~= numbers(seed, 0));
    }
}

/// Tiny deterministic PRNG (SplitMix64).
pub struct Rng(u64);

impl View for Rng {
    type V = u64;

    closed spec fn view(&self) -> u64 {
        self.0
    }
}

impl Rng {
    /// A generator with a seed; 0 takes one from the clock.
    pub fn new(seed: u64) -> (r: Rng)
        ensures
            seed != 0 ==> r@ == seed,
            exists|nanos: Option<u128>| r@ == #[trigger] seeded(seed, nanos),
    {
        let nanos = if seed == 0 {
            clock()
        } else {
            None
        };
        Rng(seed_from(seed, nanos))
    }

    /// The next number.
    pub fn next(&mut self) -> (n: u64)
        ensures
            final(self)@ == stepped(old(self)@),
            n == mixed(final(self)@),
    {
        self.0 = self.0.wrapping_add(0x9E37_79B9_7F4A_7C15);
        let mut z: u64 = self.0;
        z = (z ^ (z >> 30)).wrapping_mul(0xBF58_476D_1CE4_E5B9);
        z = (z ^ (z >> 27)).wrapping_mul(0x94D0_49BB_1331_11EB);
        z ^ (z >> 31)
    }

    /// True with probability `pct`/100.
    pub fn roll(&mut self, pct: u32) -> (hit: bool)
        ensures
            (final(self)@, hit) == rolled(old(self)@, pct),
    {
        if pct >= 100 {
            return true;
        }
        if pct == 0 {
            return false;
        }
        self.next() % 100 < pct as u64
    }
}

/// Counters of what the injector did.
#[derive(Clone, Copy, Debug, PartialEq, Eq, Structural)]
pub struct FaultStats {
    pub dropped: u64,
    pub emitted: u64,
}

impl Default for FaultStats {
    fn default() -> (s: Self)
        ensures
            s == (FaultStats { dropped: 0, emitted: 0 }),
    {
        FaultStats { dropped: 0, emitted: 0 }
    }
}

/// Which faults to inject.
#[derive(Clone, Copy, Debug, PartialEq, Eq, Structural)]
pub struct FaultConfig {
    /// percentage of outgoing datagrams dropped
    pub drop_pct: u32,
    /// percentage sent twice
    pub dup_pct: u32,
    /// percentage of sends swapped with the next one
    pub reorder_pct: u32,
    /// fixed one-way latency added to outgoing
    pub delay_ms: u64,
    /// period of full-drop bursts (0 = off)
    pub burst_every_ms: u64,
    /// duration of each drop burst
    pub burst_dur_ms: u64,
}

/// The model of an optional text.
pub open spec fn text_given(value: Option<&str>) -> Option<Seq<char>> {
    match value {
        Some(v) => Some(v@),
        None => None,
    }
}

impl FaultConfig {
    /// The faults that the texts of six variables give; what is absent or no
    /// number gives none. A percentage counts modulo 2^32.
    pub fn from_settings(
        drop_pct: Option<&str>,
        dup_pct: Option<&str>,
        reorder_pct: Option<&str>,
        delay_ms: Option<&str>,
        burst_every_ms: Option<&str>,
        burst_dur_ms: Option<&str>,
    ) -> (c: FaultConfig)
        ensures
            c == (FaultConfig {
                drop_pct: (setting(text_given(drop_pct), 0) % 0x1_0000_0000) as u32,
                dup_pct: (setting(text_given(dup_pct), 0) % 0x1_0000_0000) as u32,
                reorder_pct: (setting(text_given(reorder_pct), 0) % 0x1_0000_0000) as u32,
                delay_ms: setting(text_given(delay_ms), 0),
                burst_every_ms: setting(text_given(burst_every_ms), 0),
                burst_dur_ms: setting(text_given(burst_dur_ms), 0),
            }),
    {
        FaultConfig {
            drop_pct: (setting_of(drop_pct, 0) % 0x1_0000_0000) as u32,
            dup_pct: (setting_of(dup_pct, 0) % 0x1_0000_0000) as u32,
            reorder_pct: (setting_of(reorder_pct, 0) % 0x1_0000_0000) as u32,
            delay_ms: setting_of(delay_ms, 0),
            burst_every_ms: setting_of(burst_every_ms, 0),
            burst_dur_ms: setting_of(burst_dur_ms, 0),
        }
    }
}

/// Bytes on their way to a peer.
pub struct Datagram {
    pub bytes: Vec<u8>,
    pub to: Endpoint,
}

/// The model of a [`Datagram`].
pub struct DatagramView {
    pub bytes: Seq<u8>,
    pub to: Endpoint,
}

impl View for Datagram {
    type V = DatagramView;

    open spec fn view(&self) -> DatagramView {
        DatagramView { bytes: self.bytes@, to: self.to }
    }
}

/// The models of a list of datagrams.
pub open spec fn datagrams(v: Seq<Datagram>) -> Seq<DatagramView> {
    v.map_values(|d: Datagram| d@)
}

fn same_again(d: &Datagram) -> (r: Datagram)
    ensures
        r@ == d@,
{
    Datagram { bytes: vstd::slice::slice_to_vec(d.bytes.as_slice()), to: d.to }
}

/// The path that every outgoing datagram takes.
pub struct FaultInjector {
    rng: Rng,
    started: u128,
    config: FaultConfig,
    held: Option<(u128, Datagram)>,
    delayed: VecDeque<(u128, Datagram)>,
    stats: FaultStats,
}

/// The model of a [`FaultInjector`].
pub struct FaultView {
    /// the state of the random numbers
    pub rng: u64,
    pub started: u128,
    pub config: FaultConfig,
    /// datagram held back for reordering (sent after the next one)
    pub held: Option<(u128, DatagramView)>,
    /// datagrams waiting out their artificial latency
    pub delayed: Seq<(u128, DatagramView)>,
    pub stats: FaultStats,
}

impl View for FaultInjector {
    type V = FaultView;

    closed spec fn view(&self) -> FaultView {
        FaultView {
            rng: self.rng@,
            started: self.started,
            config: self.config,
            held: match self.held {
                Some((t, d)) => Some((t, d@)),
                None => None,
            },
            delayed: self.delayed@.map_values(|e: (u128, Datagram)| (e.0, e.1@)),
            stats: self.stats,
        }
    }
}

/// A counter after one more, modulo 2^64.
pub open spec fn counted(n: u64) -> u64 {
    ((n + 1) % 0x1_0000_0000_0000_0000) as u64
}

/// How many datagrams at the front have waited long enough.
pub open spec fn due(q: Seq<(u128, DatagramView)>, now: u128) -> nat
    decreases q.len(),
{
    if q.len() > 0 && q[0].0 <= now {
        1 + due(q.skip(1), now)
    } else {
        0
    }
}

/// The datagrams of a queue.
pub open spec fn queued(q: Seq<(u128, DatagramView)>) -> Seq<DatagramView> {
    q.map_values(|e: (u128, DatagramView)| e.1)
}

impl FaultView {
    /// Whether any fault is injected.
    pub open spec fn enabled(self) -> bool {
        ||| self.config.drop_pct > 0
        ||| self.config.dup_pct > 0
        ||| self.config.reorder_pct > 0
        ||| self.config.delay_ms > 0
        ||| self.config.burst_every_ms > 0
    }

    /// Whether everything is dropped at this moment.
    pub open spec fn in_burst(self, now: u128) -> bool {
        self.config.burst_every_ms != 0 && (since(now, self.started) / 1_000_000) as u64
            % self.config.burst_every_ms < self.config.burst_dur_ms
    }

    /// The injector after a drop.
    pub open spec fn dropping(self) -> Self {
        FaultView {
            stats: FaultStats { dropped: counted(self.stats.dropped), ..self.stats },
            ..self
        }
    }

    /// One copy of a datagram: dropped, delayed or out.
    pub open spec fn copied(self, d: DatagramView, now: u128) -> (Self, Seq<DatagramView>) {
        let (rng, hit) = rolled(self.rng, self.config.drop_pct);
        let v = FaultView { rng, ..self };
        if hit {
            (v.dropping(), Seq::empty())
        } else if self.config.delay_ms > 0 {
            (
                FaultView {
                    delayed: v.delayed.push((after(now, millis(self.config.delay_ms)), d)),
                    ..v
                },
                Seq::empty(),
            )
        } else {
            (v, seq![d])
        }
    }

    /// One or two copies of a datagram.
    #[verifier::opaque]
    pub open spec fn piped(self, d: DatagramView, now: u128) -> (Self, Seq<DatagramView>) {
        let (rng, twice) = rolled(self.rng, self.config.dup_pct);
        let (v, first) = (FaultView { rng, ..self }).copied(d, now);
        if twice {
            let (w, second) = v.copied(d, now);
            (w, first + second)
        } else {
            (v, first)
        }
    }

    /// The injector after a datagram has been handed to it, and what goes out
    /// at once.
    #[verifier::opaque]
    pub open spec fn sent(self, d: DatagramView, now: u128) -> (Self, Seq<DatagramView>) {
        if self.in_burst(now) {
            (self.dropping(), Seq::empty())
        } else if self.config.reorder_pct > 0 && self.held is Some {
            // the new one goes first, then the one held back: they are swapped
            let (v, first) = (FaultView { held: None, ..self }).piped(d, now);
            let (w, second) = v.piped(self.held.unwrap().1, now);
            (w, first + second)
        } else {
            let (rng, hold) = rolled(self.rng, self.config.reorder_pct);
            let v = FaultView { rng, ..self };
            if hold {
                (FaultView { held: Some((now, d)), ..v }, Seq::empty())
            } else {
                v.piped(d, now)
            }
        }
    }

    /// The injector after everything that has waited long enough has gone.
    pub open spec fn drained(self, now: u128) -> Self {
        FaultView {
            delayed: self.delayed.skip(due(self.delayed, now) as int),
            held: if self.held is Some && since(now, self.held.unwrap().0) >= HOLD_MAX {
                None
            } else {
                self.held
            },
            ..self
        }
    }

    /// What has waited long enough.
    pub open spec fn released(self, now: u128) -> Seq<DatagramView> {
        let out = queued(self.delayed.take(due(self.delayed, now) as int));
        if self.held is Some && since(now, self.held.unwrap().0) >= HOLD_MAX {
            out.push(self.held.unwrap().1)
        } else {
            out
        }
    }

    /// When the head of the delay queue is due, and when what is held back is.
    pub open spec fn due_times(self) -> (Option<u128>, Option<u128>) {
        (
            if self.delayed.len() > 0 {
                Some(self.delayed[0].0)
            } else {
                None
            },
            match self.held {
                Some(h) => Some(after(h.0, HOLD_MAX as int)),
                None => None,
            },
        )
    }

    /// When the injector wants to be drained next: as soon as the head of the
    /// queue or what is held back is due; what is overdue comes at once.
    pub open spec fn deadline(self, now: u128) -> Option<u128> {
        let t = match self.due_times() {
            (Some(a), Some(b)) => Some(
                if a <= b {
                    a
                } else {
                    b
                },
            ),
            (Some(a), None) => Some(a),
            (None, b) => b,
        };
        match t {
            Some(t) => Some(
                if t > now {
                    t
                } else {
                    after(now, 1)
                },
            ),
            None => None,
        }
    }

    pub open spec fn summary_text(self) -> Seq<char> {
        "fault injection: drop "@ + decimal(self.config.drop_pct as int) + "% dup "@ + decimal(
            self.config.dup_pct as int,
        ) + "% delay "@ + decimal(self.config.delay_ms as int) + "ms reorder "@ + decimal(
            self.config.reorder_pct as int,
        ) + "% burst "@ + decimal(self.config.burst_dur_ms as int) + "/"@ + decimal(
            self.config.burst_every_ms as int,
        ) + "ms seed rng"@
    }
}

pub(crate) proof fn due_bounds(q: Seq<(u128, DatagramView)>, now: u128)
    ensures
        due(q, now) <= q.len(),
        due(q, now) < q.len() ==> q[due(q, now) as int].0 > now,
        forall|i: int| 0 <= i < due(q, now) ==> (#[trigger] q[i]).0 <= now,
    decreases q.len(),
{
    if q.len() > 0 && q[0].0 <= now {
        let rest = q.skip(1);
        due_bounds(rest, now);
        assert forall|i: int| 0 <= i < due(q, now) implies (#[trigger] q[i]).0 <= now by {
            if i > 0 {
                assert(rest[i - 1].0 <= now);
            }
        }
    }
}

impl FaultInjector {
    /// An injector that starts at `now`.
    pub fn new(config: FaultConfig, seed: u64, now: u128) -> (f: Self)
        ensures
            f@ == (FaultView {
                rng: f@.rng,
                started: now,
                config,
                held: None,
                delayed: Seq::empty(),
                stats: FaultStats { dropped: 0, emitted: 0 },
            }),
            seed != 0 ==> f@.rng == seed,
    {
        let f = FaultInjector {
            rng: Rng::new(seed),
            started: now,
            config,
            held: None,
            delayed: VecDeque::new(),
            stats: FaultStats { dropped: 0, emitted: 0 },
        };
        proof {
            assert(f@.delayed =~= Seq::empty());
        }
        f
    }

    /// What the injector did so far.
    pub fn stats(&self) -> (s: FaultStats)
        ensures
            s == self@.stats,
    {
        self.stats
    }

    /// Whether any fault is injected.
    pub fn enabled(&self) -> (r: bool)
        ensures
            r == self@.enabled(),
    {
        self.config.drop_pct > 0 || self.config.dup_pct > 0 || self.config.reorder_pct > 0
            || self.config.delay_ms > 0 || self.config.burst_every_ms > 0
    }

    /// The faults in words.
    pub fn summary(&self) -> (s: String)
        ensures
            s@ == self@.summary_text(),
    {
        let mut out: Vec<char> = Vec::new();
        push_text(&mut out, "fault injection: drop ");
        push_decimal(&mut out, self.config.drop_pct as u64);
        push_text(&mut out, "% dup ");
        push_decimal(&mut out, self.config.dup_pct as u64);
        push_text(&mut out, "% delay ");
        push_decimal(&mut out, self.config.delay_ms);
        push_text(&mut out, "ms reorder ");
        push_decimal(&mut out, self.config.reorder_pct as u64);
        push_text(&mut out, "% burst ");
        push_decimal(&mut out, self.config.burst_dur_ms);
        push_text(&mut out, "/");
        push_decimal(&mut out, self.config.burst_every_ms);
        push_text(&mut out, "ms seed rng");
        proof {
            assert(out@ =~= self@.summary_text());
        }
        string_of(&out)
    }

    /// Whether everything is dropped at this moment.
    pub fn in_burst(&self, now: u128) -> (r: bool)
        ensures
            r == self@.in_burst(now),
    {
        if self.config.burst_every_ms == 0 {
            return false;
        }
        let el: u64 = (elapsed(now, self.started) / 1_000_000) as u64;
        el % self.config.burst_every_ms < self.config.burst_dur_ms
    }

    fn copy(&mut self, d: Datagram, now: u128) -> (out: Option<Datagram>)
        ensures
            final(self)@ == old(self)@.copied(d@, now).0,
            match out {
                Some(x) => old(self)@.copied(d@, now).1 == seq![x@],
                None => old(self)@.copied(d@, now).1 == Seq::<DatagramView>::empty(),
            },
    {
        if self.rng.roll(self.config.drop_pct) {
            self.stats.dropped = self.stats.dropped.wrapping_add(1);
            return None;
        }
        if self.config.delay_ms > 0 {
            let ghost before = self@.delayed;
            self.delayed.push_back((later(now, milliseconds(self.config.delay_ms)), d));
            proof {
                assert(self@.delayed =~= before.push(
                    (after(now, millis(self.config.delay_ms)), d@),
                ));
            }
            return None;
        }
        Some(d)
    }

    fn pipeline(&mut self, d: Datagram, now: u128) -> (out: Vec<Datagram>)
        ensures
            final(self)@ == old(self)@.piped(d@, now).0,
            datagrams(out@) == old(self)@.piped(d@, now).1,
    {
        reveal(FaultView::piped);
        let mut out: Vec<Datagram> = Vec::new();
        let twice = self.rng.roll(self.config.dup_pct);
        let again = same_again(&d);
        if let Some(x) = self.copy(d, now) {
            out.push(x);
        }
        if twice {
            if let Some(x) = self.copy(again, now) {
                out.push(x);
            }
        }
        proof {
            assert(datagrams(out@) =~= old(self)@.piped(d@, now).1);
        }
        out
    }

    fn swap(&mut self, d: Datagram, before: Datagram, now: u128) -> (out: Vec<Datagram>)
        ensures
            final(self)@ == old(self)@.piped(d@, now).0.piped(before@, now).0,
            datagrams(out@) == old(self)@.piped(d@, now).1 + old(self)@.piped(d@, now).0.piped(
                before@,
                now,
            ).1,
    {
        let mut out = self.pipeline(d, now);
        let mut second = self.pipeline(before, now);
        let ghost a = datagrams(out@);
        let ghost b = datagrams(second@);
        out.append(&mut second);
        proof {
            assert(datagrams(out@) =~= a + b);
        }
        out
    }

    /// Inject faults into one outgoing datagram; gives what goes out at once.
    pub fn send(&mut self, d: Datagram, now: u128) -> (out: Vec<Datagram>)
        ensures
            final(self)@ == old(self)@.sent(d@, now).0,
            datagrams(out@) == old(self)@.sent(d@, now).1,
    {
        reveal(FaultView::sent);
        let mut out: Vec<Datagram> = Vec::new();
        if self.in_burst(now) {
            self.stats.dropped = self.stats.dropped.wrapping_add(1);
            proof {
                assert(datagrams(out@) =~= Seq::<DatagramView>::empty());
            }
            return out;
        }
        if self.config.reorder_pct > 0 {
            let mut held: Option<(u128, Datagram)> = None;
            std::mem::swap(&mut held, &mut self.held);
            if let Some((_, before)) = held {
                return self.swap(d, before, now);
            }
            if self.rng.roll(self.config.reorder_pct) {
                self.held = Some((now, d));
                proof {
                    assert(datagrams(out@) =~= Seq::<DatagramView>::empty());
                }
                return out;
            }
        }
        self.pipeline(d, now)
    }

    fn pop_delayed(&mut self) -> (d: Option<Datagram>)
        ensures
            match d {
                Some(d) => old(self)@.delayed.len() > 0 && d@ == old(self)@.delayed[0].1
                    && final(self)@ == (FaultView {
                    delayed: old(self)@.delayed.skip(1),
                    ..old(self)@
                }),
                None => old(self)@.delayed.len() == 0 && final(self)@ == old(self)@,
            },
    {
        let ghost before = self.delayed@;
        match self.delayed.pop_front() {
            Some((_, d)) => {
                proof {
                    assert(before[0].1@ == old(self)@.delayed[0].1);
                    assert(self@.delayed =~= old(self)@.delayed.skip(1));
                }
                Some(d)
            },
            None => None,
        }
    }

    /// Release delayed/held datagrams whose time has come. Called per tick.
    pub fn drain(&mut self, now: u128) -> (out: Vec<Datagram>)
        ensures
            final(self)@ == old(self)@.drained(now),
            datagrams(out@) == old(self)@.released(now),
    {
        let mut out: Vec<Datagram> = Vec::new();
        let ghost q = self@.delayed;
        let ghost n = due(q, now);
        let mut count: usize = 0;
        while count < self.delayed.len() && self.delayed[count].0 <= now
            invariant
                count <= q.len(),
                q == self@.delayed,
                *self == *old(self),
                forall|j: int| 0 <= j < count ==> (#[trigger] q[j]).0 <= now,
            decreases q.len() - count,
        {
            proof {
                assert(q[count as int].0 == self.delayed@[count as int].0);
            }
            count = count + 1;
        }
        proof {
            due_bounds(q, now);
            if count < q.len() {
                assert(q[count as int].0 == self.delayed@[count as int].0);
            }
            assert(count == n);
            assert(q.skip(0) =~= q);
            assert(datagrams(out@) =~= queued(q.take(0)));
        }
        let mut i: usize = 0;
        while i < count
            invariant
                i <= count <= q.len(),
                self@.delayed == q.skip(i as int),
                self@ == (FaultView { delayed: self@.delayed, ..old(self)@ }),
                datagrams(out@) == queued(q.take(i as int)),
            decreases count - i,
        {
            let ghost before = datagrams(out@);
            if let Some(d) = self.pop_delayed() {
                out.push(d);
                proof {
                    assert(self@.delayed =~= q.skip(i + 1));
                    assert(d@ == q[i as int].1);
                    assert(datagrams(out@) =~= before.push(d@));
                    assert(datagrams(out@) =~= queued(q.take(i + 1)));
                }
            }
            i = i + 1;
        }
        let mut held: Option<(u128, Datagram)> = None;
        std::mem::swap(&mut held, &mut self.held);
        let ghost waited = datagrams(out@);
        match held {
            Some((held_at, d)) => {
                if elapsed(now, held_at) >= HOLD_MAX {
                    out.push(d);
                    proof {
                        assert(datagrams(out@) =~= waited.push(d@));
                    }
                } else {
                    self.held = Some((held_at, d));
                }
            },
            None => {},
        }
        out
    }

    /// Takes note that a datagram has gone out, or could not.
    pub fn emitted(&mut self, ok: bool)
        ensures
            final(self)@ == (FaultView {
                stats: FaultStats {
                    emitted: if ok {
                        counted(old(self)@.stats.emitted)
                    } else {
                        old(self)@.stats.emitted
                    },
                    ..old(self)@.stats
                },
                ..old(self)@
            }),
    {
        if ok {
            self.stats.emitted = self.stats.emitted.wrapping_add(1);
        }
    }

    /// Earliest deadline the event loop must wake up for (delay queue, held).
    pub fn next_deadline(&self, now: u128) -> (t: Option<u128>)
        ensures
            t == self@.deadline(now),
    {
        let queued: Option<u128> = if self.delayed.len() > 0 {
            proof {
                assert(self@.delayed[0].0 == self.delayed@[0].0);
            }
            Some(self.delayed[0].0)
        } else {
            None
        };
        let held: Option<u128> = match &self.held {
            Some((at, _)) => Some(later(*at, HOLD_MAX)),
            None => None,
        };
        let t: Option<u128> = match (queued, held) {
            (Some(a), Some(b)) => Some(
                if a <= b {
                    a
                } else {
                    b
                },
            ),
            (Some(a), None) => Some(a),
            (None, b) => b,
        };
        match t {
            Some(t) => Some(
                if t > now {
                    t
                } else {
                    later(now, 1)
                },
            ),
            None => None,
        }
    }
}

/// Nothing that waits is due before the deadline, unless it is overdue, and
/// there is a deadline exactly where something waits.
pub proof fn deadline_is_earliest(v: FaultView, now: u128)
    requires
        now < u128::MAX,
    ensures
        v.deadline(now) is None <==> v.delayed.len() == 0 && v.held is None,
        v.delayed.len() > 0 ==> v.deadline(now)->0 <= v.delayed[0].0 || v.deadline(now)->0 == now
            + 1,
        v.held matches Some(h) ==> v.deadline(now)->0 <= after(h.0, HOLD_MAX as int) || v.deadline(
            now,
        )->0 == now + 1,
        v.deadline(now) matches Some(t) ==> t > now,
{
}

/// Without faults every datagram goes out once, at once, and nothing is kept.
pub proof fn no_fault_is_transparent(v: FaultView, d: DatagramView, now: u128)
    requires
        !v.enabled(),
    ensures
        v.sent(d, now) == (v, seq![d]),
{
    reveal(FaultView::sent);
    reveal(FaultView::piped);
}

/// In a burst nothing goes out.
pub proof fn burst_drops_all(v: FaultView, d: DatagramView, now: u128)
    requires
        v.in_burst(now),
    ensures
        v.sent(d, now) == (v.dropping(), Seq::<DatagramView>::empty()),
{
    reveal(FaultView::sent);
}

/// With a loss of everything no datagram is ever sent or scheduled.
pub proof fn full_loss_sends_nothing(v: FaultView, d: DatagramView, now: u128)
    requires
        v.config.drop_pct >= 100,
    ensures
        v.sent(d, now).1 == Seq::<DatagramView>::empty(),
        v.sent(d, now).0.delayed == v.delayed,
{
    reveal(FaultView::sent);
    reveal(FaultView::piped);
    assert(v.sent(d, now).1 =~= Seq::<DatagramView>::empty());
}

proof fn piped_copies(v: FaultView, d: DatagramView, now: u128)
    ensures
        v.piped(d, now).1.len() <= 2,
        forall|i: int| 0 <= i < v.piped(d, now).1.len() ==> #[trigger] v.piped(d, now).1[i] == d,
{
    reveal(FaultView::piped);
}

/// Every datagram that goes out was handed in, now or before: none is made up.
pub proof fn nothing_is_made_up(v: FaultView, d: DatagramView, now: u128, i: int)
    requires
        0 <= i < v.sent(d, now).1.len(),
    ensures
        v.sent(d, now).1[i] == d || (v.held is Some && v.sent(d, now).1[i] == v.held.unwrap().1),
        v.sent(d, now).1.len() <= 4,
{
    reveal(FaultView::sent);
    let (rng, hold) = rolled(v.rng, v.config.reorder_pct);
    piped_copies(FaultView { rng, ..v }, d, now);
    if v.held is Some {
        let free = FaultView { held: None, ..v };
        piped_copies(free, d, now);
        piped_copies(free.piped(d, now).0, v.held.unwrap().1, now);
    }
}

} // verus!
