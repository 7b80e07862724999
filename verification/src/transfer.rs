//! What both ends of a segment transfer go by: sizes, limits, timers, and the
//! names of segments.
//!
//! An instant and a duration are both counted in nanoseconds; an instant from
//! some fixed moment before the program began.
use vstd::prelude::*;
use vstd::utf8::{decode_utf8, encode_utf8, valid_utf8};
use crate::protocol::{inventory_says, mask_bit, SegmentAvailability, AVAILABILITY_MASK_BITS};
use crate::text::{
    between, chars_of, has_char, has_prefix, has_suffix, lines, parse_number, parse_unsigned,
    split_lines, string_of, strings, texts, trim, trim_text, utf8_text,
};

verus! {

pub const SEGMENT_PACKET_SIZE: usize = 1400;

pub const INITIAL_WINDOW: u16 = 5;

pub const MAX_WINDOW: u16 = 64;

/// Receiver re-request retries (with backoff, ~25 s worst case).
pub const RETRY_LIMIT: u32 = 8;

/// Sender ack-timeout retries (with backoff, outlives the receiver's budget
/// so a burst-stalled window can recover).
pub const SENDER_RETRY_LIMIT: u32 = 30;

/// How long a finished download lingers, in nanoseconds.
pub const COMPLETE_GRACE: u128 = 4_000_000_000;

pub const MAX_CONCURRENT_TRANSFERS: usize = 32;

/// Packets sent per tick: pacing is deadline-driven, never blocking.
pub const SEND_CHUNK: u16 = 8;

/// No retry waits longer than this, in nanoseconds.
pub const LONGEST_WAIT: u128 = 8_000_000_000;

/// Nanoseconds in a millisecond.
pub const MILLISECOND: u128 = 1_000_000;

/// Tunables of the transfer timers.
#[derive(Clone, Copy, Debug, PartialEq, Eq, Structural)]
pub struct Settings {
    pub pace_ms: u64,
    pub quiet_ms: u64,
    pub first_timeout_ms: u64,
}

/// The number in a setting's text, or the default where there is none.
pub open spec fn setting(value: Option<Seq<char>>, default: u64) -> u64 {
    match value {
        Some(text) => match parse_number(text, u64::MAX as int) {
            Some(n) => n as u64,
            None => default,
        },
        None => default,
    }
}

/// The number in a setting's text; what is absent or no number gives the
/// default.
pub fn setting_of(value: Option<&str>, default: u64) -> (n: u64)
    ensures
        n == setting(
            match value {
                Some(v) => Some(v@),
                None => None,
            },
            default,
        ),
{
    match value {
        Some(text) => {
            let chars = chars_of(text);
            match parse_unsigned(&chars, u64::MAX) {
                Some(n) => n,
                None => default,
            }
        },
        None => default,
    }
}

/// The settings that the texts of three variables give; what is absent or no
/// number takes its default.
pub fn settings(pacing: Option<&str>, quiet: Option<&str>, first_timeout: Option<&str>) -> (s:
    Settings)
    ensures
        s == (Settings {
            pace_ms: setting(
                match pacing {
                    Some(v) => Some(v@),
                    None => None,
                },
                1,
            ),
            quiet_ms: setting(
                match quiet {
                    Some(v) => Some(v@),
                    None => None,
                },
                150,
            ),
            first_timeout_ms: setting(
                match first_timeout {
                    Some(v) => Some(v@),
                    None => None,
                },
                4000,
            ),
        }),
{
    Settings {
        pace_ms: setting_of(pacing, 1),
        quiet_ms: setting_of(quiet, 150),
        first_timeout_ms: setting_of(first_timeout, 4000),
    }
}

/// The instant `d` after `t`; the last instant where there is no later one.
pub open spec fn after(t: u128, d: int) -> u128 {
    if t + d > u128::MAX {
        u128::MAX
    } else {
        (t + d) as u128
    }
}

/// How long ago `t` was at `now`; nothing for an instant to come.
pub open spec fn since(now: u128, t: u128) -> u128 {
    if now >= t {
        (now - t) as u128
    } else {
        0
    }
}

/// A moving average in which the newest sample weighs one quarter.
pub open spec fn smoothed(estimate: u128, sample: u128) -> u128 {
    ((3 * estimate + sample) / 4) as u128
}

/// Milliseconds in nanoseconds.
pub open spec fn millis(ms: u64) -> int {
    ms * 1_000_000
}

/// Twice to the power of a backoff that counts up to four.
pub open spec fn backoff_factor(n: u32) -> int {
    if n == 0 {
        1
    } else if n == 1 {
        2
    } else if n == 2 {
        4
    } else if n == 3 {
        8
    } else {
        16
    }
}

pub open spec fn larger(a: int, b: int) -> int {
    if a >= b {
        a
    } else {
        b
    }
}

pub open spec fn smaller(a: int, b: int) -> int {
    if a <= b {
        a
    } else {
        b
    }
}

/// Receiver quiet period adapted to the observed inter-packet gap: a delayed
/// link spaces packets out, and a fixed quiet period would take the gaps for
/// loss. The backoff grows on repeated re-requests so a burst spreads its
/// retries.
pub open spec fn quiet_wait(s: Settings, gap: u128, backoff: u32) -> int {
    smaller(
        larger(millis(s.quiet_ms), gap * 3 + 50 * MILLISECOND) * backoff_factor(backoff),
        LONGEST_WAIT as int,
    )
}

/// Sender-side ack timeout: paced window delivery plus receiver quiet with
/// slack, and at least twice the measured round-trip so delayed links don't
/// cause blind retransmits. At least 300 ms.
pub open spec fn ack_wait(s: Settings, count: u16, rtt: u128) -> int {
    larger(
        larger(count * s.pace_ms + s.quiet_ms + 100, 300) * MILLISECOND,
        rtt * 2 + 150 * MILLISECOND,
    )
}

/// Ack timeout for a retry: exponential backoff, capped.
pub open spec fn retry_wait(s: Settings, count: u16, rtt: u128, retries: u32) -> int {
    smaller(ack_wait(s, count, rtt) * backoff_factor(retries), LONGEST_WAIT as int)
}

/// Every wait is positive and at most eight seconds.
pub proof fn waits_are_bounded(s: Settings, count: u16, estimate: u128, n: u32)
    ensures
        0 < quiet_wait(s, estimate, n) <= 8_000_000_000,
        0 < retry_wait(s, count, estimate, n) <= 8_000_000_000,
        300_000_000 <= retry_wait(s, count, estimate, n),
{
    let q = larger(millis(s.quiet_ms), estimate * 3 + 50 * MILLISECOND);
    let a = ack_wait(s, count, estimate);
    let f = backoff_factor(n);
    assert(count * s.pace_ms >= 0) by (nonlinear_arith);
    assert(q * f >= q) by (nonlinear_arith)
        requires
            q >= 0,
            f >= 1,
    ;
    assert(a * f >= a) by (nonlinear_arith)
        requires
            a >= 0,
            f >= 1,
    ;
}

/// A higher backoff never waits less.
pub proof fn backoff_never_shortens(s: Settings, count: u16, estimate: u128, n: u32, m: u32)
    requires
        n <= m,
    ensures
        quiet_wait(s, estimate, n) <= quiet_wait(s, estimate, m),
        retry_wait(s, count, estimate, n) <= retry_wait(s, count, estimate, m),
{
    let q = larger(millis(s.quiet_ms), estimate * 3 + 50 * MILLISECOND);
    let a = ack_wait(s, count, estimate);
    let f = backoff_factor(n);
    let g = backoff_factor(m);
    assert(count * s.pace_ms >= 0) by (nonlinear_arith);
    assert(q * f <= q * g) by (nonlinear_arith)
        requires
            q >= 0,
            f <= g,
    ;
    assert(a * f <= a * g) by (nonlinear_arith)
        requires
            a >= 0,
            f <= g,
    ;
}

/// The instant `d` after `t`.
pub fn later(t: u128, d: u128) -> (r: u128)
    ensures
        r == after(t, d as int),
{
    t.saturating_add(d)
}

/// How long ago `t` was at `now`.
pub fn elapsed(now: u128, t: u128) -> (r: u128)
    ensures
        r == since(now, t),
{
    now.saturating_sub(t)
}

/// The moving average after a new sample.
pub fn smooth(estimate: u128, sample: u128) -> (r: u128)
    ensures
        r == smoothed(estimate, sample),
{
    3 * (estimate / 4) + sample / 4 + (3 * (estimate % 4) + sample % 4) / 4
}

/// Milliseconds in nanoseconds.
pub fn milliseconds(ms: u64) -> (r: u128)
    ensures
        r == millis(ms),
{
    ms as u128 * 1_000_000
}

fn factor_of(n: u32) -> (f: u128)
    ensures
        f == backoff_factor(n),
{
    if n == 0 {
        1
    } else if n == 1 {
        2
    } else if n == 2 {
        4
    } else if n == 3 {
        8
    } else {
        16
    }
}

/// The receiver's quiet period for a gap and a backoff.
pub fn adaptive_quiet(s: &Settings, gap_est: u128, backoff: u32) -> (r: u128)
    ensures
        r == quiet_wait(*s, gap_est, backoff),
{
    let f = factor_of(backoff);
    let quiet: u128 = milliseconds(s.quiet_ms);
    proof {
        let q = larger(quiet as int, gap_est * 3 + 50 * MILLISECOND);
        assert(q * f >= q) by (nonlinear_arith)
            requires
                q >= 0,
                f >= 1,
        ;
        assert(q <= 0x1_0000_0000_0000_0000 * 1_000_000 ==> q * f <= 0x1_0000_0000_0000_0000
            * 1_000_000 * 16) by (nonlinear_arith)
            requires
                q >= 0,
                1 <= f <= 16,
        ;
    }
    if gap_est > LONGEST_WAIT {
        return LONGEST_WAIT;
    }
    let spread: u128 = gap_est * 3 + 50 * MILLISECOND;
    let base: u128 = if quiet >= spread {
        quiet
    } else {
        spread
    };
    let wait: u128 = base * f;
    if wait <= LONGEST_WAIT {
        wait
    } else {
        LONGEST_WAIT
    }
}

/// The sender's wait for an ACK of `count` packets, for a round-trip estimate
/// and a number of retries.
pub fn retry_interval(s: &Settings, count: u16, rtt_est: u128, retries: u32) -> (r: u128)
    ensures
        r == retry_wait(*s, count, rtt_est, retries),
{
    let f = factor_of(retries);
    proof {
        let a = ack_wait(*s, count, rtt_est);
        assert(0 <= count * s.pace_ms <= 0xffff * 0xffff_ffff_ffff_ffff) by (nonlinear_arith);
        assert(a * f >= a) by (nonlinear_arith)
            requires
                a >= 0,
                f >= 1,
        ;
        assert(a <= 0x1_0000_0000_0000_0000_0000_0000 ==> a * f
            <= 0x1_0000_0000_0000_0000_0000_0000 * 16) by (nonlinear_arith)
            requires
                a >= 0,
                1 <= f <= 16,
        ;
    }
    if rtt_est > LONGEST_WAIT {
        return LONGEST_WAIT;
    }
    let paced: u128 = count as u128 * s.pace_ms as u128 + s.quiet_ms as u128 + 100;
    let base: u128 = if paced >= 300 {
        paced
    } else {
        300
    };
    let delayed: u128 = rtt_est * 2 + 150 * MILLISECOND;
    let wait: u128 = if base * MILLISECOND >= delayed {
        base * MILLISECOND
    } else {
        delayed
    };
    let total: u128 = wait * f;
    if total <= LONGEST_WAIT {
        total
    } else {
        LONGEST_WAIT
    }
}

/// The segment names among the lines of a playlist: every line that is not
/// empty and no comment, trimmed.
pub open spec fn listed_names(lines: Seq<Seq<char>>) -> Seq<Seq<char>>
    decreases lines.len(),
{
    if lines.len() == 0 {
        Seq::empty()
    } else {
        let rest = listed_names(lines.drop_last());
        let line = lines.last();
        if line.len() == 0 || line[0] == '#' {
            rest
        } else {
            rest.push(trim(line))
        }
    }
}

/// The segment names in a playlist; none in what is not UTF-8.
pub open spec fn manifest_names(data: Seq<u8>) -> Seq<Seq<char>> {
    if valid_utf8(data) {
        listed_names(lines(decode_utf8(data)))
    } else {
        Seq::empty()
    }
}

/// Parse segment filenames out of an m3u8 playlist.
pub fn parse_manifest(data: &[u8]) -> (names: Vec<String>)
    ensures
        strings(names@) == manifest_names(data@),
{
    let mut names: Vec<String> = Vec::new();
    let text = match utf8_text(data) {
        Some(text) => text,
        None => {
            assert(strings(names@) =~= manifest_names(data@));
            return names;
        },
    };
    let chars = chars_of(text.as_str());
    let all = split_lines(&chars);
    let ghost seen = texts(all@);
    let mut i: usize = 0;
    proof {
        assert(strings(names@) =~= listed_names(seen.take(0)));
    }
    while i < all.len()
        invariant
            i <= all@.len(),
            seen == texts(all@),
            strings(names@) == listed_names(seen.take(i as int)),
        decreases all@.len() - i,
    {
        let line: &Vec<char> = &all[i];
        let ghost before = strings(names@);
        proof {
            let next = seen.take(i + 1);
            assert(next.drop_last() =~= seen.take(i as int));
            assert(next.last() == line@);
        }
        if line.len() > 0 && line[0] != '#' {
            let name = string_of(trim_text(line.as_slice()));
            names.push(name);
            proof {
                assert(strings(names@) =~= before.push(name@));
            }
        }
        i = i + 1;
    }
    proof {
        assert(seen.take(seen.len() as int) =~= seen);
    }
    names
}

/// Number of packets for a file: one per packet size begun, at least one, and
/// no more than a packet number counts.
pub open spec fn packets_for(size: int) -> int {
    smaller(larger((size + SEGMENT_PACKET_SIZE - 1) / (SEGMENT_PACKET_SIZE as int), 1), 0xffff)
}

/// Number of packets for a file of `size` bytes.
pub fn packet_count(size: usize) -> (n: u16)
    ensures
        n == packets_for(size as int),
        n >= 1,
{
    let whole: usize = size / SEGMENT_PACKET_SIZE;
    let n: usize = if size % SEGMENT_PACKET_SIZE != 0 {
        whole + 1
    } else {
        whole
    };
    if n == 0 {
        1
    } else if n > 0xffff {
        0xffff
    } else {
        n as u16
    }
}

/// The visible ASCII characters.
pub open spec fn is_graphic(c: char) -> bool {
    '!' <= c && c <= '~'
}

/// Whether a name is a plain file name: not empty, at most 255 bytes, all
/// visible ASCII, without separators, and not hidden.
pub open spec fn is_valid_filename(name: Seq<char>) -> bool {
    &&& name.len() > 0
    &&& encode_utf8(name).len() <= 255
    &&& !name.contains('/')
    &&& !name.contains('\\')
    &&& name[0] != '.'
    &&& forall|i: int| 0 <= i < name.len() ==> is_graphic(#[trigger] name[i])
}

/// Reject path traversal and weird names.
pub fn valid_filename(name: &str) -> (r: bool)
    ensures
        r == is_valid_filename(name@),
{
    let chars = chars_of(name);
    if chars.len() == 0 || name.as_bytes().len() > 255 || has_char(&chars, '/') || has_char(
        &chars,
        '\\',
    ) || chars[0] == '.' {
        return false;
    }
    let mut i: usize = 0;
    while i < chars.len()
        invariant
            i <= chars@.len(),
            chars@ == name@,
            forall|j: int| 0 <= j < i ==> is_graphic(#[trigger] name@[j]),
        decreases chars@.len() - i,
    {
        let c: char = chars[i];
        if !('!' <= c && c <= '~') {
            assert(!is_graphic(name@[i as int]));
            return false;
        }
        i = i + 1;
    }
    true
}

/// The number of the segment with a file name.
pub open spec fn numbered(name: Seq<char>) -> Option<int> {
    match between(name, "seg_"@, ".ts"@) {
        Some(digits) => parse_number(digits, u64::MAX as int),
        None => None,
    }
}

/// The number of the segment with a file name.
pub fn segment_number(name: &str) -> (r: Option<u64>)
    ensures
        match r {
            Some(n) => numbered(name@) == Some(n as int),
            None => numbered(name@) is None,
        },
{
    let chars = chars_of(name);
    let prefix = chars_of("seg_");
    let suffix = chars_of(".ts");
    proof {
        reveal_strlit("seg_");
        reveal_strlit(".ts");
    }
    if !has_prefix(&chars, &prefix) {
        return None;
    }
    let rest = vstd::slice::slice_subrange(&chars, prefix.len(), chars.len());
    if !has_suffix(rest, &suffix) {
        return None;
    }
    let digits = vstd::slice::slice_subrange(rest, 0, rest.len() - suffix.len());
    proof {
        assert(rest@ =~= name@.skip(4));
        assert(digits@ =~= rest@.take(rest@.len() - 3));
        assert("seg_"@.len() == 4 && ".ts"@.len() == 3);
        assert(between(name@, "seg_"@, ".ts"@) == Some(digits@));
    }
    parse_unsigned(digits, u64::MAX)
}

/// Whether a segment with this number is among the files.
pub open spec fn has_number(names: Seq<String>, n: int) -> bool {
    exists|i: int| 0 <= i < names.len() && numbered((#[trigger] names[i])@) == Some(n)
}

/// What an inventory of files is: the newest segment, and one bit for each of
/// the recent ones that is there.
pub open spec fn is_inventory(names: Seq<String>, a: Option<SegmentAvailability>) -> bool {
    match a {
        None => forall|n: int| !has_number(names, n),
        Some(a) => {
            &&& has_number(names, a.newest as int)
            &&& forall|n: int| has_number(names, n) ==> n <= a.newest
            &&& forall|k: u16|
                k < AVAILABILITY_MASK_BITS ==> #[trigger] mask_bit(a.mask, k) == has_number(
                    names,
                    a.newest - k,
                )
        },
    }
}

/// There is one inventory of a list of files.
pub proof fn inventory_is_unique(
    names: Seq<String>,
    a: Option<SegmentAvailability>,
    b: Option<SegmentAvailability>,
)
    requires
        is_inventory(names, a),
        is_inventory(names, b),
    ensures
        a == b,
{
    if let Some(x) = a {
        assert(has_number(names, x.newest as int));
        if let Some(y) = b {
            assert(x.newest == y.newest);
            let m = x.mask;
            let n = y.mask;
assert(mask_bit(m, 0) == mask_bit(n, 0));
            assert(mask_bit(m, 1) == mask_bit(n, 1));
            assert(mask_bit(m, 2) == mask_bit(n, 2));
            assert(mask_bit(m, 3) == mask_bit(n, 3));
            assert(mask_bit(m, 4) == mask_bit(n, 4));
            assert(mask_bit(m, 5) == mask_bit(n, 5));
            assert(mask_bit(m, 6) == mask_bit(n, 6));
            assert(mask_bit(m, 7) == mask_bit(n, 7));
            assert(mask_bit(m, 8) == mask_bit(n, 8));
            assert(mask_bit(m, 9) == mask_bit(n, 9));
            assert(mask_bit(m, 10) == mask_bit(n, 10));
            assert(mask_bit(m, 11) == mask_bit(n, 11));
            assert(mask_bit(m, 12) == mask_bit(n, 12));
            assert(mask_bit(m, 13) == mask_bit(n, 13));
            assert(mask_bit(m, 14) == mask_bit(n, 14));
            assert(mask_bit(m, 15) == mask_bit(n, 15));
            assert(m == n) by (bit_vector)
                requires
                    (m & (1u16 << 0u16) != 0) == (n & (1u16 << 0u16) != 0),
                    (m & (1u16 << 1u16) != 0) == (n & (1u16 << 1u16) != 0),
                    (m & (1u16 << 2u16) != 0) == (n & (1u16 << 2u16) != 0),
                    (m & (1u16 << 3u16) != 0) == (n & (1u16 << 3u16) != 0),
                    (m & (1u16 << 4u16) != 0) == (n & (1u16 << 4u16) != 0),
                    (m & (1u16 << 5u16) != 0) == (n & (1u16 << 5u16) != 0),
                    (m & (1u16 << 6u16) != 0) == (n & (1u16 << 6u16) != 0),
                    (m & (1u16 << 7u16) != 0) == (n & (1u16 << 7u16) != 0),
                    (m & (1u16 << 8u16) != 0) == (n & (1u16 << 8u16) != 0),
                    (m & (1u16 << 9u16) != 0) == (n & (1u16 << 9u16) != 0),
                    (m & (1u16 << 10u16) != 0) == (n & (1u16 << 10u16) != 0),
                    (m & (1u16 << 11u16) != 0) == (n & (1u16 << 11u16) != 0),
                    (m & (1u16 << 12u16) != 0) == (n & (1u16 << 12u16) != 0),
                    (m & (1u16 << 13u16) != 0) == (n & (1u16 << 13u16) != 0),
                    (m & (1u16 << 14u16) != 0) == (n & (1u16 << 14u16) != 0),
                    (m & (1u16 << 15u16) != 0) == (n & (1u16 << 15u16) != 0),
            ;
        }
    } else if let Some(y) = b {
        assert(has_number(names, y.newest as int));
    }
}

/// An inventory answers for every segment of its window, and for no other.
pub proof fn inventory_answers(names: Seq<String>, a: SegmentAvailability, segment: u64)
    requires
        is_inventory(names, Some(a)),
    ensures
        segment <= a.newest && a.newest - segment < 16 ==> inventory_says(a, segment) == Some(
            has_number(names, segment as int),
        ),
        segment > a.newest || a.newest - segment >= 16 ==> inventory_says(a, segment) is None,
{
    if segment <= a.newest && a.newest - segment < 16 {
        let k = (a.newest - segment) as u16;
        assert(mask_bit(a.mask, k) == has_number(names, a.newest - k));
    }
}

proof fn set_bit(mask: u16, d: u16, k: u16)
    requires
        d < 16,
        k < 16,
    ensures
        mask_bit(mask | (1u16 << d), k) == (k == d || mask_bit(mask, k)),
{
    assert(((mask | (1u16 << d)) & (1u16 << k) != 0) == (k == d || mask & (1u16 << k) != 0))
        by (bit_vector)
        requires
            d < 16,
            k < 16,
    ;
}

/// Summarize the recent ones among stored files in a compact 16-bit mask.
pub fn segment_availability(names: &[String]) -> (r: Option<SegmentAvailability>)
    ensures
        is_inventory(names@, r),
{
    let mut newest: Option<u64> = None;
    let mut i: usize = 0;
    while i < names.len()
        invariant
            i <= names@.len(),
            match newest {
                None => forall|j: int| 0 <= j < i ==> numbered((#[trigger] names@[j])@) is None,
                Some(n) => (exists|j: int|
                    0 <= j < i && numbered((#[trigger] names@[j])@) == Some(n as int)) && forall|
                    j: int,
                |
                    0 <= j < i ==> match numbered((#[trigger] names@[j])@) {
                        Some(m) => m <= n,
                        None => true,
                    },
            },
        decreases names@.len() - i,
    {
        if let Some(n) = segment_number(names[i].as_str()) {
            assert(numbered(names@[i as int]@) == Some(n as int));
            newest = match newest {
                Some(m) => Some(
                    if m >= n {
                        m
                    } else {
                        n
                    },
                ),
                None => Some(n),
            };
        }
        i = i + 1;
    }
    let newest: u64 = match newest {
        Some(n) => n,
        None => {
            return None;
        },
    };
    let mut mask: u16 = 0;
    let mut i: usize = 0;
    proof {
        assert forall|k: u16| k < 16 implies !(#[trigger] mask_bit(0, k)) by {
            assert(0u16 & (1u16 << k) == 0) by (bit_vector);
        }
    }
    while i < names.len()
        invariant
            i <= names@.len(),
            forall|n: int| has_number(names@, n) ==> n <= newest,
            forall|k: u16|
                k < 16 ==> #[trigger] mask_bit(mask, k) == exists|j: int|
                    0 <= j < i && numbered((#[trigger] names@[j])@) == Some(newest - k),
        decreases names@.len() - i,
    {
        let ghost before = mask;
        let number = segment_number(names[i].as_str());
        if let Some(n) = number {
            proof {
                assert(numbered(names@[i as int]@) == Some(n as int));
                assert(has_number(names@, n as int));
            }
            let distance: u64 = newest - n;
            if distance < AVAILABILITY_MASK_BITS as u64 {
                mask = mask | (1u16 << (distance as u16));
            }
        }
        proof {
            assert forall|k: u16| k < 16 implies #[trigger] mask_bit(mask, k) == exists|j: int|
                0 <= j < i + 1 && numbered((#[trigger] names@[j])@) == Some(newest - k) by {
                if let Some(n) = number {
                    if newest - n < 16 {
                        set_bit(before, (newest - n) as u16, k);
                    }
                }
                assert(mask_bit(before, k) == exists|j: int|
                    0 <= j < i && numbered((#[trigger] names@[j])@) == Some(newest - k));
                if mask_bit(mask, k) {
                    if mask_bit(before, k) {
                        let j = choose|j: int|
                            0 <= j < i && numbered((#[trigger] names@[j])@) == Some(newest - k);
                        assert(numbered(names@[j]@) == Some(newest - k));
                    } else {
                        assert(numbered(names@[i as int]@) == Some(newest - k));
                    }
                }
            }
        }
        i = i + 1;
    }
    Some(SegmentAvailability { newest, mask })
}

} // verus!
