//! UTC log lines with configurable verbosity.
//! Levels: 0=error, 1=warn, 2=info, 3=debug, 4=trace. Default: info (2).
use vstd::prelude::*;
use crate::text::{decimal_padded, push_decimal_padded, push_text, same_text, string_of};

verus! {

/// The verbosity to begin with.
pub const DEFAULT_LEVEL: u8 = 2;

/// The level with a name.
pub open spec fn level_named(name: Seq<char>) -> Option<u8> {
    if name == "error"@ {
        Some(0)
    } else if name == "warn"@ {
        Some(1)
    } else if name == "info"@ {
        Some(2)
    } else if name == "debug"@ {
        Some(3)
    } else if name == "trace"@ {
        Some(4)
    } else {
        None
    }
}

/// The verbosity after setting it from a string
/// (`error|warn|info|debug|trace`). Unknown values are ignored.
pub fn set_level(current: u8, level: &str) -> (value: u8)
    ensures
        value == match level_named(level@) {
            Some(v) => v,
            None => current,
        },
{
    if same_text(level, "error") {
        0
    } else if same_text(level, "warn") {
        1
    } else if same_text(level, "info") {
        2
    } else if same_text(level, "debug") {
        3
    } else if same_text(level, "trace") {
        4
    } else {
        current
    }
}

/// Whether a year of the Gregorian calendar has a 29th of February.
pub open spec fn is_leap(y: int) -> bool {
    y % 4 == 0 && (y % 100 != 0 || y % 400 == 0)
}

/// The days of a month.
pub open spec fn month_days(y: int, m: int) -> int {
    if m == 2 {
        if is_leap(y) {
            29
        } else {
            28
        }
    } else if m == 4 || m == 6 || m == 9 || m == 11 {
        30
    } else {
        31
    }
}

/// The days of a year before a month begins.
pub open spec fn days_before_month(y: int, m: int) -> int
    decreases m,
{
    if m <= 1 {
        0
    } else {
        days_before_month(y, m - 1) + month_days(y, m - 1)
    }
}

/// The leap days before a year begins, from year 1 on.
pub open spec fn leap_days_before(y: int) -> int {
    (y - 1) / 4 - (y - 1) / 100 + (y - 1) / 400
}

/// Whether year, month and day are a date of the Gregorian calendar.
pub open spec fn is_date(date: (int, int, int)) -> bool {
    1 <= date.1 <= 12 && 1 <= date.2 <= month_days(date.0, date.1)
}

/// The days from 1970-01-01 to a date.
pub open spec fn day_number(date: (int, int, int)) -> int {
    365 * (date.0 - 1970) + leap_days_before(date.0) - leap_days_before(1970) + days_before_month(
        date.0,
        date.1,
    ) + date.2 - 1
}

/// The date `days` after 1970-01-01.
pub open spec fn civil(days: int) -> (int, int, int) {
    choose|date: (int, int, int)| is_date(date) && #[trigger] day_number(date) == days
}

proof fn month_table(y: int)
    ensures
        days_before_month(y, 1) == 0,
        days_before_month(y, 2) == 31,
        days_before_month(y, 3) == 31 + month_days(y, 2),
        days_before_month(y, 4) == 62 + month_days(y, 2),
        days_before_month(y, 5) == 92 + month_days(y, 2),
        days_before_month(y, 6) == 123 + month_days(y, 2),
        days_before_month(y, 7) == 153 + month_days(y, 2),
        days_before_month(y, 8) == 184 + month_days(y, 2),
        days_before_month(y, 9) == 215 + month_days(y, 2),
        days_before_month(y, 10) == 245 + month_days(y, 2),
        days_before_month(y, 11) == 276 + month_days(y, 2),
        days_before_month(y, 12) == 306 + month_days(y, 2),
{
    reveal_with_fuel(days_before_month, 13);
}

proof fn leap_days_grow(y: int, z: int)
    requires
        y <= z,
    ensures
        leap_days_before(y) <= leap_days_before(z),
    decreases z - y,
{
    if y < z {
        leap_days_grow(y, z - 1);
        leap_day_counts(z - 1);
    }
}

proof fn leap_day_counts(y: int)
    ensures
        leap_days_before(y + 1) == leap_days_before(y) + if is_leap(y) {
            1int
        } else {
            0int
        },
{
}

proof fn later_year_is_later(a: (int, int, int), b: (int, int, int))
    requires
        is_date(a),
        is_date(b),
        a.0 < b.0,
    ensures
        day_number(a) < day_number(b),
{
    month_table(a.0);
    month_table(b.0);
    leap_day_counts(a.0);
    leap_days_grow(a.0 + 1, b.0);
}

/// Two dates that are the same number of days from 1970-01-01 are the same.
pub proof fn dates_are_unique(a: (int, int, int), b: (int, int, int))
    requires
        is_date(a),
        is_date(b),
        day_number(a) == day_number(b),
    ensures
        a == b,
{
    if a.0 < b.0 {
        later_year_is_later(a, b);
    } else if b.0 < a.0 {
        later_year_is_later(b, a);
    }
    month_table(a.0);
}

/// The day of a year that begins in March, as month and day; month 13 and 14
/// are January and February of the year after.
proof fn march_months(doy: int, mp: int)
    requires
        0 <= doy <= 365,
        mp == (5 * doy + 2) / 153,
    ensures
        0 <= mp <= 11,
        doy - (153 * mp + 2) / 5 >= 0,
        mp == 0 ==> (153 * mp + 2) / 5 == 0 && doy <= 30,
        mp == 1 ==> (153 * mp + 2) / 5 == 31 && doy <= 60,
        mp == 2 ==> (153 * mp + 2) / 5 == 61 && doy <= 91,
        mp == 3 ==> (153 * mp + 2) / 5 == 92 && doy <= 121,
        mp == 4 ==> (153 * mp + 2) / 5 == 122 && doy <= 152,
        mp == 5 ==> (153 * mp + 2) / 5 == 153 && doy <= 183,
        mp == 6 ==> (153 * mp + 2) / 5 == 184 && doy <= 213,
        mp == 7 ==> (153 * mp + 2) / 5 == 214 && doy <= 244,
        mp == 8 ==> (153 * mp + 2) / 5 == 245 && doy <= 274,
        mp == 9 ==> (153 * mp + 2) / 5 == 275 && doy <= 305,
        mp == 10 ==> (153 * mp + 2) / 5 == 306 && doy <= 336,
        mp == 11 ==> (153 * mp + 2) / 5 == 337,
{
}

/// A year from March on, its day, and the date that they are.
proof fn march_year_is_date(y0: int, doy: int, date: (int, int, int))
    requires
        0 <= doy < 365 + if is_leap(y0 + 1) {
            1int
        } else {
            0int
        },
        ({
            let mp = (5 * doy + 2) / 153;
            &&& date.2 == doy - (153 * mp + 2) / 5 + 1
            &&& mp < 10 ==> date.1 == mp + 3 && date.0 == y0
            &&& mp >= 10 ==> date.1 == mp - 9 && date.0 == y0 + 1
        }),
    ensures
        is_date(date),
        day_number(date) == 365 * y0 + y0 / 4 - y0 / 100 + y0 / 400 + doy - 719_468,
{
    march_months(doy, (5 * doy + 2) / 153);
    month_table(y0);
    month_table(y0 + 1);
    leap_day_counts(y0);
}

/// A day of an era, split into centuries, groups of four years, and years.
proof fn era_splits(d: int, century: int, group: int, year: int, doy: int)
    requires
        0 <= d <= 146_096,
        century == if d / 36_524 <= 3 {
            d / 36_524
        } else {
            3
        },
        group == (d - century * 36_524) / 1_461,
        year == if (d - century * 36_524) % 1_461 / 365 <= 3 {
            (d - century * 36_524) % 1_461 / 365
        } else {
            3
        },
        doy == (d - century * 36_524) % 1_461 - year * 365,
    ensures
        0 <= century <= 3,
        0 <= group <= 24,
        0 <= year <= 3,
        0 <= doy <= 365,
        d == century * 36_524 + group * 1_461 + year * 365 + doy,
        doy == 365 ==> year == 3 && (group == 24 ==> century == 3),
{
    if doy == 365 && group == 24 {
        assert(d - century * 36_524 == 36_524);
    }
}

/// The quotients and the leap year after a year of an era.
proof fn era_year_is_year(era: int, century: int, group: int, year: int)
    requires
        0 <= century <= 3,
        0 <= group <= 24,
        0 <= year <= 3,
    ensures
        ({
            let y0 = era * 400 + century * 100 + group * 4 + year;
            &&& y0 / 400 == era
            &&& y0 / 100 == era * 4 + century
            &&& y0 / 4 == era * 100 + century * 25 + group
            &&& year == 3 && group < 24 ==> is_leap(y0 + 1)
            &&& year == 3 && group == 24 && century == 3 ==> is_leap(y0 + 1)
        }),
{
    let y0 = era * 400 + century * 100 + group * 4 + year;
    let rest = group * 4 + year;
    assert(y0 / 100 == era * 4 + century && y0 % 100 == rest);
    if year == 3 {
        assert((y0 + 1) % 4 == 0);
        if group < 24 {
            assert((y0 + 1) % 100 == rest + 1);
        } else if century == 3 {
            assert((y0 + 1) % 400 == 0);
        }
    }
}

/// Convert days since 1970-01-01 to Gregorian year/month/day.
pub fn civil_from_days(days: i64) -> (r: (i64, i64, i64))
    requires
        days <= 0x7fff_ffff_ffff_ffff - 719_468,
    ensures
        is_date((r.0 as int, r.1 as int, r.2 as int)),
        day_number((r.0 as int, r.1 as int, r.2 as int)) == days,
        (r.0 as int, r.1 as int, r.2 as int) == civil(days as int),
{
    let z: i64 = days + 719_468;
    // the era of 400 years, and the day in it
    let (era, day_of_era): (i64, i64) = if z >= 0 {
        let n: u64 = z as u64;
        ((n / 146_097) as i64, (n % 146_097) as i64)
    } else {
        let n: u64 = (-(z + 1)) as u64;
        (-((n / 146_097) as i64) - 1, 146_096 - (n % 146_097) as i64)
    };
    assert(z == era * 146_097 + day_of_era && 0 <= day_of_era <= 146_096);
    let d: u64 = day_of_era as u64;
    // centuries of 36524 days, the last one a day longer
    let century: u64 = if d / 36_524 <= 3 {
        d / 36_524
    } else {
        3
    };
    let day_of_century: u64 = d - century * 36_524;
    // groups of four years, then years, the last one a day longer
    let group: u64 = day_of_century / 1_461;
    let day_of_group: u64 = day_of_century % 1_461;
    let year_of_group: u64 = if day_of_group / 365 <= 3 {
        day_of_group / 365
    } else {
        3
    };
    let day_of_year: u64 = day_of_group - year_of_group * 365;
    let year_of_era: u64 = century * 100 + group * 4 + year_of_group;
    let ghost y0 = era * 400 + year_of_era;
    proof {
        era_splits(d as int, century as int, group as int, year_of_group as int, day_of_year as int);
        era_year_is_year(era as int, century as int, group as int, year_of_group as int);
    }
    let month_part: u64 = (5 * day_of_year + 2) / 153;
    proof {
        march_months(day_of_year as int, month_part as int);
    }
    let day: u64 = day_of_year - (153 * month_part + 2) / 5 + 1;
    let year: i64 = era * 400 + year_of_era as i64;
    let r: (i64, i64, i64) = if month_part < 10 {
        (year, month_part as i64 + 3, day as i64)
    } else {
        (year + 1, month_part as i64 - 9, day as i64)
    };
    proof {
        let date = (r.0 as int, r.1 as int, r.2 as int);
        march_year_is_date(y0, day_of_year as int, date);
        let c = civil(days as int);
        assert(is_date(date) && day_number(date) == days);
        dates_are_unique(c, date);
    }
    r
}

/// The UTC time `millis` milliseconds after the start of 1970, as
/// `YYYY-MM-DDTHH:MM:SS.sss`.
pub open spec fn timestamp(millis: u64) -> Seq<char> {
    let date = civil((millis / 86_400_000) as int);
    let second = millis / 1_000 % 86_400;
    decimal_padded(date.0, 4) + "-"@ + decimal_padded(date.1, 2) + "-"@ + decimal_padded(date.2, 2)
        + "T"@ + decimal_padded((second / 3_600) as int, 2) + ":"@ + decimal_padded(
        (second % 3_600 / 60) as int,
        2,
    ) + ":"@ + decimal_padded((second % 60) as int, 2) + "."@ + decimal_padded(
        (millis % 1_000) as int,
        3,
    )
}

proof fn years_are_positive(date: (int, int, int))
    requires
        is_date(date),
        day_number(date) >= 0,
    ensures
        date.0 >= 1970,
{
    if date.0 < 1970 {
        later_year_is_later(date, (1970, 1, 1));
        month_table(1970);
    }
}

fn push_timestamp(out: &mut Vec<char>, millis: u64)
    ensures
        final(out)@ == old(out)@ + timestamp(millis),
{
    let ghost start = out@;
    let days: u64 = millis / 86_400_000;
    let (year, month, day) = civil_from_days(days as i64);
    proof {
        years_are_positive((year as int, month as int, day as int));
    }
    let second: u64 = millis / 1_000 % 86_400;
    push_decimal_padded(out, year as u64, 4);
    push_text(out, "-");
    push_decimal_padded(out, month as u64, 2);
    push_text(out, "-");
    push_decimal_padded(out, day as u64, 2);
    push_text(out, "T");
    push_decimal_padded(out, second / 3_600, 2);
    push_text(out, ":");
    push_decimal_padded(out, second % 3_600 / 60, 2);
    push_text(out, ":");
    push_decimal_padded(out, second % 60, 2);
    push_text(out, ".");
    push_decimal_padded(out, millis % 1_000, 3);
    proof {
        assert(out@ =~= start + timestamp(millis));
    }
}

/// Format UTC wall-clock time as `YYYY-MM-DDTHH:MM:SS.sss`.
pub fn utc_timestamp(millis: u64) -> (s: String)
    ensures
        s@ == timestamp(millis),
{
    let mut out: Vec<char> = Vec::new();
    push_timestamp(&mut out, millis);
    proof {
        assert(out@ =~= timestamp(millis));
    }
    string_of(&out)
}

/// A log line.
pub open spec fn log_line(name: Seq<char>, millis: u64, msg: Seq<char>) -> Seq<char> {
    "["@ + timestamp(millis) + "] "@ + name + " "@ + msg
}

/// The line of a message, where the verbosity lets it through.
pub open spec fn logged(
    verbosity: u8,
    level: u8,
    name: Seq<char>,
    millis: u64,
    msg: Seq<char>,
) -> Option<Seq<char>> {
    if level <= verbosity {
        Some(log_line(name, millis, msg))
    } else {
        None
    }
}

/// A text that may be missing.
pub open spec fn text_of(s: Option<String>) -> Option<Seq<char>> {
    match s {
        Some(s) => Some(s@),
        None => None,
    }
}

fn log(verbosity: u8, level: u8, name: &str, millis: u64, msg: &str) -> (line: Option<String>)
    ensures
        text_of(line) == logged(verbosity, level, name@, millis, msg@),
{
    if level > verbosity {
        return None;
    }
    let mut out: Vec<char> = Vec::new();
    push_text(&mut out, "[");
    push_timestamp(&mut out, millis);
    push_text(&mut out, "] ");
    push_text(&mut out, name);
    push_text(&mut out, " ");
    push_text(&mut out, msg);
    proof {
        assert(out@ =~= log_line(name@, millis, msg@));
    }
    Some(string_of(&out))
}

/// The line of a trace message.
pub fn trace(verbosity: u8, millis: u64, msg: &str) -> (line: Option<String>)
    ensures
        text_of(line) == logged(verbosity, 4, "TRACE"@, millis, msg@),
{
    log(verbosity, 4, "TRACE", millis, msg)
}

/// The line of a debug message.
pub fn debug(verbosity: u8, millis: u64, msg: &str) -> (line: Option<String>)
    ensures
        text_of(line) == logged(verbosity, 3, "DEBUG"@, millis, msg@),
{
    log(verbosity, 3, "DEBUG", millis, msg)
}

/// The line of an informational message.
pub fn info(verbosity: u8, millis: u64, msg: &str) -> (line: Option<String>)
    ensures
        text_of(line) == logged(verbosity, 2, "INFO "@, millis, msg@),
{
    log(verbosity, 2, "INFO ", millis, msg)
}

/// The line of a warning.
pub fn warn(verbosity: u8, millis: u64, msg: &str) -> (line: Option<String>)
    ensures
        text_of(line) == logged(verbosity, 1, "WARN "@, millis, msg@),
{
    log(verbosity, 1, "WARN ", millis, msg)
}

/// The line of an error.
pub fn error(verbosity: u8, millis: u64, msg: &str) -> (line: Option<String>)
    ensures
        text_of(line) == logged(verbosity, 0, "ERROR"@, millis, msg@),
{
    log(verbosity, 0, "ERROR", millis, msg)
}

} // verus!
