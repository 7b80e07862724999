//! What holds of the log.
use vstd::prelude::*;
use crate::log::{
    day_number, days_before_month, is_date, is_leap, leap_days_before, logged, timestamp,
};

verus! {

/// What is logged at a level is logged, in the same words, at every higher one;
/// a message of the level itself is logged, one above it is not.
pub proof fn higher_levels_log_more(
    verbosity: u8,
    higher: u8,
    level: u8,
    name: Seq<char>,
    millis: u64,
    msg: Seq<char>,
)
    requires
        verbosity <= higher,
    ensures
        logged(verbosity, level, name, millis, msg) is Some ==> logged(
            higher,
            level,
            name,
            millis,
            msg,
        ) == logged(verbosity, level, name, millis, msg),
        logged(level, level, name, millis, msg) is Some,
        level > verbosity ==> logged(verbosity, level, name, millis, msg) is None,
{
}

/// A line of the log is the time in brackets, the name of the level and the
/// message.
pub proof fn lines_tell_time_level_and_message(
    level: u8,
    name: Seq<char>,
    millis: u64,
    msg: Seq<char>,
)
    ensures
        logged(level, level, name, millis, msg) == Some(
            "["@ + timestamp(millis) + "] "@ + name + " "@ + msg,
        ),
{
}

/// The day after the last of February is the first of March, and a year that a
/// date begins is followed by the next one after 366 days if February has 29,
/// after 365 if it has not.
pub proof fn years_follow_one_another(year: int)
    requires
        year >= 1,
    ensures
        day_number((1970, 1, 1)) == 0,
        day_number((year, 3, 1)) == day_number((year, 2, 28)) + if is_date((year, 2, 29)) {
            2int
        } else {
            1
        },
        day_number((year + 1, 1, 1)) == day_number((year, 12, 31)) + 1,
        is_date((year, 2, 29)) <==> year % 4 == 0 && (year % 100 != 0 || year % 400 == 0),
{
    reveal_with_fuel(days_before_month, 13);
}

/// The calendar repeats after four hundred years, which have 146097 days.
pub proof fn calendar_repeats(year: int, month: int, day: int)
    ensures
        day_number((year + 400, month, day)) == day_number((year, month, day)) + 146_097,
        is_date((year + 400, month, day)) == is_date((year, month, day)),
{
    months_repeat(year, month);
    leaps_repeat(year);
}

proof fn leaps_repeat(year: int)
    ensures
        leap_days_before(year + 400) == leap_days_before(year) + 97,
        is_leap(year + 400) == is_leap(year),
{
    assert((year + 400 - 1) / 4 == (year - 1) / 4 + 100);
    assert((year + 400 - 1) / 100 == (year - 1) / 100 + 4);
    assert((year + 400 - 1) / 400 == (year - 1) / 400 + 1);
    assert((year + 400) % 4 == year % 4);
    assert((year + 400) % 100 == year % 100);
    assert((year + 400) % 400 == year % 400);
}

proof fn months_repeat(year: int, month: int)
    ensures
        days_before_month(year + 400, month) == days_before_month(year, month),
    decreases month,
{
    if month > 1 {
        months_repeat(year, month - 1);
        leaps_repeat(year);
    }
}

} // verus!
