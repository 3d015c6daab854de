//! Times of modification as they are shown.

use crate::text;
use chrono::{Local, MappedLocalTime, TimeZone};
use vstd::prelude::*;
use vstd::string::*;

verus! {

/// The earliest time, in seconds since 1970, that has a date: the start of the year -262143.
pub const EARLIEST: i64 = -8334601228800;

/// The latest time, in seconds since 1970, that has a date: the end of the year 262142.
pub const LATEST: i64 = 8210266876799;

/// The layout in which a time is shown.
pub open spec fn layout() -> Seq<char> {
    "%Y-%m-%d %H:%M"@
}

/// A time can be shown.
pub open spec fn has_date(secs: i64) -> bool {
    EARLIEST <= secs <= LATEST
}

/// `c` is a decimal digit.
pub open spec fn is_digit(c: char) -> bool {
    '0' <= c <= '9'
}

/// Four digits, two, and two with dashes between them, a space, and two digits and two with a colon
/// between them.
pub open spec fn is_minute_stamp(s: Seq<char>) -> bool {
    &&& s.len() == 16
    &&& s[4] == '-' && s[7] == '-' && s[10] == ' ' && s[13] == ':'
    &&& forall|i: int|
        0 <= i < 16 && i != 4 && i != 7 && i != 10 && i != 13 ==> is_digit(#[trigger] s[i])
}

/// A time zone is less than a day away from UTC.
pub open spec fn is_zone_offset(offset: int) -> bool {
    -86400 < offset < 86400
}

/// In every time zone, the year of the time `secs` is one from 0 to 9999.
pub open spec fn has_common_year(secs: i64) -> bool {
    -62167132800 <= secs < 253402214400
}

/// A date of the Gregorian calendar, carried on to all years, and a time of day.
pub struct Moment {
    pub year: int,
    pub month: int,
    pub day: int,
    pub hour: int,
    pub minute: int,
    pub second: int,
}

/// The year has a 29th of February.
pub open spec fn is_leap(year: int) -> bool {
    year % 4 == 0 && (year % 100 != 0 || year % 400 == 0)
}

/// The number of days of a month.
pub open spec fn days_in_month(year: int, month: int) -> int {
    if month == 2 {
        if is_leap(year) {
            29
        } else {
            28
        }
    } else if month == 4 || month == 6 || month == 9 || month == 11 {
        30
    } else {
        31
    }
}

/// The number of days of a year before a month.
pub open spec fn days_before_month(year: int, month: int) -> int
    decreases month,
{
    if month <= 1 {
        0
    } else {
        days_before_month(year, month - 1) + days_in_month(year, month - 1)
    }
}

/// The number of days from the start of 1970 to the start of a year: 365 for each year, and one more
/// for each leap year.
pub open spec fn days_before_year(year: int) -> int {
    365 * (year - 1970) + ((year - 1) / 4 - (year - 1) / 100 + (year - 1) / 400) - 477
}

/// There is such a day, and such a time of day.
pub open spec fn is_moment(m: Moment) -> bool {
    &&& 1 <= m.month <= 12
    &&& 1 <= m.day <= days_in_month(m.year, m.month)
    &&& 0 <= m.hour < 24
    &&& 0 <= m.minute < 60
    &&& 0 <= m.second < 60
}

/// The number of days from the start of 1970 to a day.
pub open spec fn day_number(m: Moment) -> int {
    days_before_year(m.year) + days_before_month(m.year, m.month) + m.day - 1
}

/// The number of seconds from the start of 1970 to a moment, both in the same zone.
pub open spec fn seconds_of(m: Moment) -> int {
    86400 * day_number(m) + 3600 * m.hour + 60 * m.minute + m.second
}

/// A number below a hundred in two digits.
pub open spec fn two_digits(n: int) -> Seq<char> {
    seq![text::digit((n / 10) as nat), text::digit((n % 10) as nat)]
}

/// A number in decimal, with zeros before it up to four digits.
pub open spec fn four_digits(n: int) -> Seq<char> {
    if n < 10000 {
        two_digits(n / 100) + two_digits(n % 100)
    } else {
        text::decimal(n as nat)
    }
}

/// A year in at least four digits, with its sign where it is not one from 0 to 9999.
pub open spec fn year_text(year: int) -> Seq<char> {
    if year < 0 {
        seq!['-'] + four_digits(-year)
    } else if year <= 9999 {
        four_digits(year)
    } else {
        seq!['+'] + four_digits(year)
    }
}

/// A moment as it is shown, to the minute.
pub open spec fn stamp(m: Moment) -> Seq<char> {
    year_text(m.year) + seq!['-'] + two_digits(m.month) + seq!['-'] + two_digits(m.day) + seq![' ']
        + two_digits(m.hour) + seq![':'] + two_digits(m.minute)
}

/// `s` shows the time `secs` as it is in some time zone.
pub open spec fn shows_time(secs: i64, s: Seq<char>) -> bool {
    exists|m: Moment|
        is_moment(m) && is_zone_offset(seconds_of(m) - secs) && s == #[trigger] stamp(m)
}

/// `chrono::Local.timestamp_opt` and `chrono::DateTime::format`: the time `secs` seconds after the
/// start of 1970, in the time zone of the machine. `timestamp_opt` finds a time for the years from
/// -262143 to 262142 and for no others. What is written is the date and the time of day in UTC,
/// moved by the offset of the zone, which chrono keeps below a day. Which zone that is depends on
/// the machine and is left unsaid. On Unix systems the two calls panic for no time, unless the zone
/// data of the machine are unusable.
#[verifier::external_body]
fn local_time(secs: i64, layout: &str) -> (r: Option<String>)
    requires
        layout@ == self::layout(),
    ensures
        r is Some <==> has_date(secs),
        r matches Some(s) ==> shows_time(secs, s@),
{
    match Local.timestamp_opt(secs, 0) {
        MappedLocalTime::Single(time) => Some(time.format(layout).to_string()),
        _ => None,
    }
}

/// Shows a time in the time zone of the machine.
pub fn time_text(secs: i64) -> (r: Option<String>)
    ensures
        r is Some <==> has_date(secs),
        r matches Some(s) ==> shows_time(secs, s@),
{
    local_time(secs, "%Y-%m-%d %H:%M")
}

/// The months of a year add up to the year.
proof fn months_add_up(year: int, month: int, day: int)
    requires
        1 <= month <= 12,
        1 <= day <= days_in_month(year, month),
    ensures
        0 <= days_before_month(year, month) + day - 1 < days_before_year(year + 1)
            - days_before_year(year),
        days_before_year(year + 1) - days_before_year(year) == if is_leap(year) {
            366int
        } else {
            365int
        },
{
    reveal_with_fuel(days_before_month, 13);
}

proof fn years_follow(a: int, b: int)
    requires
        a <= b,
    ensures
        days_before_year(a) <= days_before_year(b),
    decreases b - a,
{
    if a < b {
        years_follow(a, b - 1);
        months_add_up(b - 1, 1, 1);
    }
}

proof fn months_follow(year: int, a: int, b: int)
    requires
        1 <= a < b <= 12,
    ensures
        days_before_month(year, a) + days_in_month(year, a) <= days_before_month(year, b),
    decreases b - a,
{
    if a < b - 1 {
        months_follow(year, a, b - 1);
    }
}

/// A later day has a greater number.
proof fn days_follow(a: Moment, b: Moment)
    requires
        is_moment(a),
        is_moment(b),
        a.year < b.year || a.year == b.year && (a.month < b.month || a.month == b.month && a.day
            < b.day),
    ensures
        day_number(a) < day_number(b),
{
    months_add_up(a.year, a.month, a.day);
    months_add_up(b.year, b.month, b.day);
    if a.year < b.year {
        years_follow(a.year + 1, b.year);
    } else if a.month < b.month {
        months_follow(a.year, a.month, b.month);
    }
}

/// A number of seconds belongs to one moment: with the zone, a time has one text.
pub proof fn a_time_is_one_moment(a: Moment, b: Moment)
    requires
        is_moment(a),
        is_moment(b),
        seconds_of(a) == seconds_of(b),
    ensures
        a == b,
{
    assert(day_number(a) == day_number(b));
    if (a.year, a.month, a.day) != (b.year, b.month, b.day) {
        if a.year < b.year || a.year == b.year && (a.month < b.month || a.month == b.month && a.day
            < b.day) {
            days_follow(a, b);
        } else {
            days_follow(b, a);
        }
    }
}

proof fn two_digits_are_digits(n: int)
    requires
        0 <= n < 100,
    ensures
        two_digits(n).len() == 2,
        is_digit(two_digits(n)[0]),
        is_digit(two_digits(n)[1]),
{
    reveal_strlit("0123456789");
}

proof fn a_common_time_has_a_common_year(secs: i64, m: Moment)
    requires
        has_common_year(secs),
        is_moment(m),
        is_zone_offset(seconds_of(m) - secs),
    ensures
        0 <= m.year <= 9999,
{
    months_add_up(m.year, m.month, m.day);
    if m.year < 0 {
        years_follow(m.year + 1, 0);
    }
    if m.year > 9999 {
        years_follow(10000, m.year);
    }
}

proof fn a_common_year_gives_a_minute_stamp(m: Moment)
    requires
        is_moment(m),
        0 <= m.year <= 9999,
    ensures
        is_minute_stamp(stamp(m)),
{
    two_digits_are_digits(m.year / 100);
    two_digits_are_digits(m.year % 100);
    two_digits_are_digits(m.month);
    two_digits_are_digits(m.day);
    two_digits_are_digits(m.hour);
    two_digits_are_digits(m.minute);
    let (a, b) = (two_digits(m.year / 100), two_digits(m.year % 100));
    let (c, d) = (two_digits(m.month), two_digits(m.day));
    let (e, f) = (two_digits(m.hour), two_digits(m.minute));
    assert(stamp(m) =~= seq![
        a[0],
        a[1],
        b[0],
        b[1],
        '-',
        c[0],
        c[1],
        '-',
        d[0],
        d[1],
        ' ',
        e[0],
        e[1],
        ':',
        f[0],
        f[1],
    ]);
}

/// A time whose year has four digits in every zone is shown as a minute stamp.
pub proof fn common_times_are_minute_stamps(secs: i64, s: Seq<char>)
    requires
        has_common_year(secs),
        shows_time(secs, s),
    ensures
        is_minute_stamp(s),
{
    let m = choose|m: Moment|
        is_moment(m) && is_zone_offset(seconds_of(m) - secs) && s == #[trigger] stamp(m);
    a_common_time_has_a_common_year(secs, m);
    a_common_year_gives_a_minute_stamp(m);
}

} // verus!
