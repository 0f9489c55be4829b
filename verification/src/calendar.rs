//! Civil time: dates of the Gregorian calendar, time zones, and the starts of hours,
//! days, weeks and months.
use crate::text::{
    decimal, digit_char, digits_value, push_zero_padded, zero_padded, zeros_do_not_change_a_number,
};
use vstd::arithmetic::div_mod::{
    lemma_div_is_ordered, lemma_fundamental_div_mod, lemma_fundamental_div_mod_converse,
    lemma_mod_bound,
};
use vstd::prelude::*;
use vstd::string::*;

verus! {

// ---- dates ----

/// Whether a year has a 29th of February.
pub open spec fn leap(year: int) -> bool {
    year % 4 == 0 && (year % 100 != 0 || year % 400 == 0)
}

/// The number of days of a month.
pub open spec fn month_len(year: int, month: int) -> int {
    if month == 2 {
        if leap(year) {
            29
        } else {
            28
        }
    } else if month == 4 || month == 6 || month == 9 || month == 11 {
        30
    } else {
        31
    }
}

/// Whether the three numbers are a date of the Gregorian calendar.
pub open spec fn date_exists(year: int, month: int, day: int) -> bool {
    1 <= month <= 12 && 1 <= day <= month_len(year, month)
}

/// The number of leap years from year 1 up to `year`, carried on below year 1.
pub open spec fn leap_years(year: int) -> int {
    year / 4 - year / 100 + year / 400
}

/// The days of a common year that lie before a month.
pub open spec fn days_before_month(month: int) -> int {
    if month <= 1 {
        0
    } else if month == 2 {
        31
    } else if month == 3 {
        59
    } else if month == 4 {
        90
    } else if month == 5 {
        120
    } else if month == 6 {
        151
    } else if month == 7 {
        181
    } else if month == 8 {
        212
    } else if month == 9 {
        243
    } else if month == 10 {
        273
    } else if month == 11 {
        304
    } else {
        334
    }
}

/// The days from 1970-01-01 to a date; negative before it.
pub open spec fn day_number(year: int, month: int, day: int) -> int {
    365 * (year - 1970) + leap_years(year - 1) - leap_years(1969) + days_before_month(month) + (
    if month > 2 && leap(year) {
        1int
    } else {
        0
    }) + day - 1
}

/// The date with a day number, as year, month and day.
pub open spec fn date_of(n: int) -> (int, int, int) {
    choose|d: (int, int, int)|
        #![trigger day_number(d.0, d.1, d.2)]
        date_exists(d.0, d.1, d.2) && day_number(d.0, d.1, d.2) == n
}

/// The day number of the Monday on or before a day.
pub open spec fn monday_of(n: int) -> int {
    n - (n + 3) % 7
}

/// The day number of the first of the month that a day lies in.
pub open spec fn first_of_month(n: int) -> int {
    let d = date_of(n);
    day_number(d.0, d.1, 1)
}

/// A civil date and time of day.
#[derive(Clone, Copy)]
pub struct Civil {
    pub year: i16,
    pub month: i8,
    pub day: i8,
    pub hour: i8,
    pub minute: i8,
    pub second: i8,
}

impl Civil {
    /// A date from year -9999 to year 9999, with a time of day.
    pub open spec fn valid(self) -> bool {
        &&& -9999 <= self.year <= 9999
        &&& date_exists(self.year as int, self.month as int, self.day as int)
        &&& 0 <= self.hour < 24
        &&& 0 <= self.minute < 60
        &&& 0 <= self.second < 60
    }

    /// The day number of the date.
    pub open spec fn day_number(self) -> int {
        day_number(self.year as int, self.month as int, self.day as int)
    }

    /// The seconds from 1970-01-01 00:00:00 on the same civil clock.
    pub open spec fn seconds(self) -> int {
        self.day_number() * 86400 + self.hour * 3600 + self.minute * 60 + self.second
    }
}

/// Of two dates, the later one has the greater day number.
pub proof fn later_date_greater_number(
    y1: int,
    m1: int,
    d1: int,
    y2: int,
    m2: int,
    d2: int,
)
    requires
        date_exists(y1, m1, d1),
        date_exists(y2, m2, d2),
        y1 < y2 || (y1 == y2 && m1 < m2) || (y1 == y2 && m1 == m2 && d1 < d2),
    ensures
        day_number(y1, m1, d1) < day_number(y2, m2, d2),
{
    if y1 < y2 {
        year_has_days(y1);
        years_increase(y1 + 1, y2);
        assert(day_number(y1, m1, d1) < day_number(y1 + 1, 1, 1));
        assert(day_number(y2, 1, 1) <= day_number(y2, m2, d2));
    }
}

proof fn year_has_days(y: int)
    ensures
        day_number(y + 1, 1, 1) == day_number(y, 1, 1) + if leap(y) {
            366int
        } else {
            365
        },
{
    quotients_step(y);
    assert(leap_years(y) - leap_years(y - 1) == if leap(y) {
        1int
    } else {
        0
    });
}

proof fn quotients_step(y: int)
    ensures
        y / 4 - (y - 1) / 4 == if y % 4 == 0 {
            1int
        } else {
            0
        },
        y / 100 - (y - 1) / 100 == if y % 100 == 0 {
            1int
        } else {
            0
        },
        y / 400 - (y - 1) / 400 == if y % 400 == 0 {
            1int
        } else {
            0
        },
        y % 400 == 0 ==> y % 100 == 0,
        y % 100 == 0 ==> y % 4 == 0,
{
}

proof fn years_increase(y1: int, y2: int)
    requires
        y1 <= y2,
    ensures
        day_number(y1, 1, 1) <= day_number(y2, 1, 1),
    decreases y2 - y1,
{
    if y1 < y2 {
        year_has_days(y1);
        years_increase(y1 + 1, y2);
    }
}

/// A date is the only one with its day number.
pub proof fn date_of_day_number(y: int, m: int, d: int)
    requires
        date_exists(y, m, d),
    ensures
        date_of(day_number(y, m, d)) == (y, m, d),
{
    let n = day_number(y, m, d);
    let w = (y, m, d);
    assert(date_exists(w.0, w.1, w.2) && day_number(w.0, w.1, w.2) == n);
    let c = date_of(n);
    assert(date_exists(c.0, c.1, c.2) && day_number(c.0, c.1, c.2) == n);
    if c.0 < y || (c.0 == y && c.1 < m) || (c.0 == y && c.1 == m && c.2 < d) {
        later_date_greater_number(c.0, c.1, c.2, y, m, d);
    } else if y < c.0 || (y == c.0 && m < c.1) || (y == c.0 && m == c.1 && d < c.2) {
        later_date_greater_number(y, m, d, c.0, c.1, c.2);
    }
}

/// Every day number belongs to a date.
pub proof fn every_day_has_a_date(n: int)
    ensures
        ({
            let d = date_of(n);
            date_exists(d.0, d.1, d.2) && day_number(d.0, d.1, d.2) == n
        }),
    decreases if n >= 0 {
        n
    } else {
        -n
    },
{
    if n == 0 {
        assert(day_number(1970, 1, 1) == 0);
        date_of_day_number(1970, 1, 1);
    } else if n > 0 {
        every_day_has_a_date(n - 1);
        let (y, m, d) = date_of(n - 1);
        if d < month_len(y, m) {
            date_of_day_number(y, m, d + 1);
        } else if m < 12 {
            date_of_day_number(y, m + 1, 1);
        } else {
            year_has_days(y);
            date_of_day_number(y + 1, 1, 1);
        }
    } else {
        every_day_has_a_date(n + 1);
        let (y, m, d) = date_of(n + 1);
        if d > 1 {
            date_of_day_number(y, m, d - 1);
        } else if m > 1 {
            date_of_day_number(y, m - 1, month_len(y, m - 1));
        } else {
            year_has_days(y - 1);
            date_of_day_number(y - 1, 12, 31);
        }
    }
}

/// The first of the month lies at most 30 days back, and is its own first of the month.
pub proof fn first_of_month_is_near(n: int)
    ensures
        n - 30 <= first_of_month(n) <= n,
        first_of_month(first_of_month(n)) == first_of_month(n),
{
    every_day_has_a_date(n);
    let (y, m, d) = date_of(n);
    assert(day_number(y, m, d) == day_number(y, m, 1) + d - 1);
    date_of_day_number(y, m, 1);
}

// ---- time zones ----

/// The first second of the range of instants.
pub const FIRST_INSTANT: i64 = -377705023201;

/// The last second of the range of instants.
pub const LAST_INSTANT: i64 = 253402207200;

/// The day number of -9999-01-01, the first date that `jiff` holds.
pub const FIRST_DAY: i64 = -4371587;

/// The day number of 9999-12-31, the last date that `jiff` holds.
pub const LAST_DAY: i64 = 2932896;

/// The greatest distance of a clock from UTC, in seconds.
pub const WIDEST_OFFSET: i64 = 93599;

/// `jiff::tz::TimeZone`, a table of offsets from UTC.
#[verifier::external_type_specification]
#[verifier::external_body]
pub struct ExTimeZone(jiff::tz::TimeZone);

/// The offset from UTC, in seconds, that the clocks of a zone show at each instant:
/// what `jiff::tz::TimeZone::to_offset` gives.
pub uninterp spec fn zone_offsets(zone: jiff::tz::TimeZone) -> Map<int, int>;

/// The offset from UTC, in seconds, by which `jiff::civil::DateTime::to_zoned` reads each
/// civil time of a zone, the civil time given in seconds. Where a clock change skips or
/// repeats the civil time, it is the offset from before the change.
pub uninterp spec fn zone_readings(zone: jiff::tz::TimeZone) -> Map<int, int>;

/// `jiff::tz::TimeZone::UTC`: no offset at any instant and for any civil time.
#[verifier::external_body]
fn utc_zone() -> (zone: jiff::tz::TimeZone)
    ensures
        forall|t: int| #[trigger] zone_offsets(zone)[t] == 0,
        forall|t: int| #[trigger] zone_readings(zone)[t] == 0,
{
    jiff::tz::TimeZone::UTC
}

/// `jiff::tz::TimeZone::system`: the zone that the machine is set to. Which one that is
/// rests with the machine, so nothing is said of it.
#[verifier::external_body]
fn system_zone() -> (zone: jiff::tz::TimeZone) {
    jiff::tz::TimeZone::system()
}

/// The machine's zone, or UTC.
pub fn time_zone(local: bool) -> (zone: jiff::tz::TimeZone)
    ensures
        !local ==> is_utc(zone),
{
    if local {
        system_zone()
    } else {
        utc_zone()
    }
}

/// Whether a zone has no offset at any instant and for any civil time.
pub open spec fn is_utc(zone: jiff::tz::TimeZone) -> bool {
    &&& forall|t: int| #[trigger] zone_offsets(zone)[t] == 0
    &&& forall|t: int| #[trigger] zone_readings(zone)[t] == 0
}

/// What the clocks of a zone show at an instant, in civil seconds.
pub open spec fn clock(zone: jiff::tz::TimeZone, ts: int) -> int {
    ts + zone_offsets(zone)[ts]
}

/// The instant at which the clocks of a zone show a civil time.
pub open spec fn instant(zone: jiff::tz::TimeZone, civil: int) -> int {
    civil - zone_readings(zone)[civil]
}

/// `jiff::Timestamp::to_zoned` and `jiff::Zoned::datetime`: the civil time that the
/// clocks of a zone show at an instant, which is the instant moved by the zone's offset;
/// an offset is below 26 hours.
#[verifier::external_body]
fn civil_at(ts: i64, zone: &jiff::tz::TimeZone) -> (c: Civil)
    requires
        FIRST_INSTANT <= ts <= LAST_INSTANT,
    ensures
        c.valid(),
        c.seconds() == clock(*zone, ts as int),
        ts - WIDEST_OFFSET <= c.seconds() <= ts + WIDEST_OFFSET,
{
    let dt = jiff::Timestamp::from_second(ts).unwrap().to_zoned(zone.clone()).datetime();
    Civil {
        year: dt.year(),
        month: dt.month(),
        day: dt.day(),
        hour: dt.hour(),
        minute: dt.minute(),
        second: dt.second(),
    }
}

/// `jiff::civil::DateTime::to_zoned`: the instant at which the clocks of a zone show a
/// civil time, nothing where that lies outside the range of instants.
#[verifier::external_body]
fn instant_at(c: Civil, zone: &jiff::tz::TimeZone) -> (r: Option<i64>)
    requires
        c.valid(),
    ensures
        r is Some <==> FIRST_INSTANT <= instant(*zone, c.seconds()) <= LAST_INSTANT,
        r matches Some(t) ==> t == instant(*zone, c.seconds()),
        r matches Some(t) ==> c.seconds() - WIDEST_OFFSET <= t <= c.seconds() + WIDEST_OFFSET,
        FIRST_INSTANT + WIDEST_OFFSET <= c.seconds() <= LAST_INSTANT - WIDEST_OFFSET ==> r is Some,
{
    let dt = jiff::civil::DateTime::new(c.year, c.month, c.day, c.hour, c.minute, c.second, 0);
    dt.unwrap().to_zoned(zone.clone()).ok().map(|z| z.timestamp().as_second())
}

/// `jiff::civil::Date::weekday` and `jiff::civil::Weekday::to_monday_zero_offset`: the
/// days from the Monday on or before a date to it; 1970-01-01 was a Thursday.
#[verifier::external_body]
fn days_after_monday(c: Civil) -> (r: i8)
    requires
        c.valid(),
    ensures
        r == (c.day_number() + 3) % 7,
{
    let date = jiff::civil::Date::new(c.year, c.month, c.day).unwrap();
    date.weekday().to_monday_zero_offset()
}

/// `jiff::civil::Date::checked_sub`: the date some days earlier, at midnight; nothing
/// where that lies before the first date.
#[verifier::external_body]
fn days_earlier(c: Civil, days: i32) -> (r: Option<Civil>)
    requires
        c.valid(),
        0 <= days <= 1000,
    ensures
        r is Some <==> c.day_number() - days >= FIRST_DAY,
        r matches Some(d) ==> d.valid() && d.seconds() == (c.day_number() - days) * 86400,
{
    let date = jiff::civil::Date::new(c.year, c.month, c.day).unwrap();
    let date = date.checked_sub(jiff::ToSpan::days(days)).ok()?;
    let (year, month, day) = (date.year(), date.month(), date.day());
    Some(Civil { year, month, day, hour: 0, minute: 0, second: 0 })
}

// ---- starts ----

/// A span of civil time.
#[derive(Clone, Copy, PartialEq, Eq, Structural)]
pub enum Unit {
    Hour,
    Day,
    Week,
    Month,
}

/// The start of the span that a civil time lies in, in civil seconds. Weeks start on
/// Monday.
pub open spec fn unit_start(unit: Unit, civil: int) -> int {
    match unit {
        Unit::Hour => civil - civil % 3600,
        Unit::Day => civil / 86400 * 86400,
        Unit::Week => monday_of(civil / 86400) * 86400,
        Unit::Month => first_of_month(civil / 86400) * 86400,
    }
}

/// The instant at which the span that `ts` lies in starts, on the clocks of a zone.
pub open spec fn start_in(zone: jiff::tz::TimeZone, unit: Unit, ts: int) -> int {
    instant(zone, unit_start(unit, clock(zone, ts)))
}

/// Whether the instant and the start of its span lie in the range of dates and instants.
pub open spec fn start_exists(zone: jiff::tz::TimeZone, unit: Unit, ts: int) -> bool {
    &&& FIRST_INSTANT <= ts <= LAST_INSTANT
    &&& unit_start(unit, clock(zone, ts)) >= FIRST_DAY * 86400
    &&& FIRST_INSTANT <= start_in(zone, unit, ts) <= LAST_INSTANT
}

/// Whether an instant lies so far from both ends of the range that the start of its span
/// exists in every zone: a month and the widest offset there and back.
pub open spec fn far_from_ends(ts: int) -> bool {
    FIRST_INSTANT + 31 * 86400 + 2 * WIDEST_OFFSET <= ts <= LAST_INSTANT - 2 * WIDEST_OFFSET
}

/// Whole days, in seconds, make that many days.
proof fn whole_days(n: int)
    ensures
        n * 86400 / 86400 == n,
{
    lemma_fundamental_div_mod_converse(n * 86400, 86400, n, 0);
}

/// A number as a multiple and a rest.
proof fn parts_of(n: int, d: int)
    requires
        d > 0,
    ensures
        n == d * (n / d) + n % d,
        0 <= n % d < d,
{
    lemma_fundamental_div_mod(n, d);
    lemma_mod_bound(n, d);
}

proof fn civil_parts(c: Civil)
    requires
        c.valid(),
    ensures
        c.seconds() / 86400 == c.day_number(),
        c.seconds() % 3600 == c.minute * 60 + c.second,
        c.seconds() / 3600 == c.day_number() * 24 + c.hour,
        c.day_number() >= FIRST_DAY,
{
    let n = c.day_number();
    lemma_fundamental_div_mod_converse(
        c.seconds(),
        86400,
        n,
        c.hour * 3600 + c.minute * 60 + c.second,
    );
    lemma_fundamental_div_mod_converse(
        c.seconds(),
        3600,
        n * 24 + c.hour,
        c.minute * 60 + c.second as int,
    );
    if c.year > -9999 || c.month > 1 || c.day > 1 {
        later_date_greater_number(
            -9999,
            1,
            1,
            c.year as int,
            c.month as int,
            c.day as int,
        );
    }
    assert(day_number(-9999, 1, 1) == FIRST_DAY);
}

/// The start of a span is not after the moment, and at most 31 days before it.
pub proof fn unit_start_is_near(unit: Unit, civil: int)
    ensures
        civil - 31 * 86400 < unit_start(unit, civil) <= civil,
{
    parts_of(civil, 3600);
    parts_of(civil, 86400);
    parts_of(civil / 86400 + 3, 7);
    first_of_month_is_near(civil / 86400);
}

/// The instant at which the span that `ts` lies in starts, on the clocks of a zone.
pub fn start_of(unit: Unit, ts: i64, zone: &jiff::tz::TimeZone) -> (r: Option<i64>)
    ensures
        r is Some <==> start_exists(*zone, unit, ts as int),
        r matches Some(t) ==> t == start_in(*zone, unit, ts as int),
        r matches Some(t) ==> ts - 34 * 86400 <= t <= ts + 3 * 86400,
        far_from_ends(ts as int) ==> r is Some,
{
    if ts < FIRST_INSTANT || ts > LAST_INSTANT {
        return None;
    }
    let c = civil_at(ts, zone);
    proof {
        civil_parts(c);
        unit_start_is_near(unit, c.seconds());
        date_of_day_number(c.year as int, c.month as int, c.day as int);
    }
    let start = match unit {
        Unit::Hour => Civil { minute: 0, second: 0, ..c },
        Unit::Day => Civil { hour: 0, minute: 0, second: 0, ..c },
        Unit::Week => {
            let back = days_after_monday(c);
            match days_earlier(c, back as i32) {
                Some(d) => d,
                None => return None,
            }
        },
        Unit::Month => Civil { day: 1, hour: 0, minute: 0, second: 0, ..c },
    };
    proof {
        civil_parts(start);
        assert(start.seconds() == unit_start(unit, c.seconds()));
    }
    instant_at(start, zone)
}

/// The midnight at which a day starts, on the clocks of a zone.
pub open spec fn midnight(zone: jiff::tz::TimeZone, day: int) -> int {
    instant(zone, day * 86400)
}

/// Whether a time lies in the range of instants.
pub open spec fn in_instants(t: int) -> bool {
    FIRST_INSTANT <= t <= LAST_INSTANT
}

/// The midnight at which a date starts, on the clocks of a zone; nothing where it lies
/// outside the range of instants.
pub fn civil_midnight(c: Civil, zone: &jiff::tz::TimeZone) -> (r: Option<i64>)
    requires
        c.valid(),
    ensures
        r is Some <==> in_instants(midnight(*zone, c.day_number())),
        r matches Some(t) ==> t == midnight(*zone, c.day_number()),
{
    instant_at(Civil { hour: 0, minute: 0, second: 0, ..c }, zone)
}

/// The number of days of a month.
pub fn len_of_month(year: i16, month: i8) -> (r: i8)
    requires
        -9999 <= year <= 9999,
    ensures
        r == month_len(year as int, month as int),
{
    let shifted: i32 = year as i32 + 12000;
    let is_leap = shifted % 4 == 0 && (shifted % 100 != 0 || shifted % 400 == 0);
    proof {
        let y = year as int;
        assert((y + 12000) % 4 == y % 4);
        assert((y + 12000) % 100 == y % 100);
        assert((y + 12000) % 400 == y % 400);
        assert(is_leap == leap(y));
    }
    if month == 2 {
        if is_leap {
            29
        } else {
            28
        }
    } else if month == 4 || month == 6 || month == 9 || month == 11 {
        30
    } else {
        31
    }
}

/// The date after another, at midnight; nothing after the last date.
pub fn day_after(c: Civil) -> (r: Option<Civil>)
    requires
        c.valid(),
    ensures
        r is Some <==> c.day_number() < LAST_DAY,
        r matches Some(d) ==> {
            &&& d.valid() && d.hour == 0 && d.minute == 0 && d.second == 0
            &&& d.day_number() == c.day_number() + 1
        },
{
    proof {
        assert(day_number(9999, 12, 31) == LAST_DAY);
        if c.year < 9999 || c.month < 12 || c.day < 31 {
            later_date_greater_number(
                c.year as int,
                c.month as int,
                c.day as int,
                9999,
                12,
                31,
            );
        }
    }
    if c.day < len_of_month(c.year, c.month) {
        Some(Civil { day: c.day + 1, hour: 0, minute: 0, second: 0, ..c })
    } else if c.month < 12 {
        Some(Civil { month: c.month + 1, day: 1, hour: 0, minute: 0, second: 0, ..c })
    } else if c.year < 9999 {
        proof {
            year_has_days(c.year as int);
        }
        Some(Civil { year: c.year + 1, month: 1, day: 1, hour: 0, minute: 0, second: 0 })
    } else {
        None
    }
}

/// The end of a day on the clocks of a zone: the midnight that follows, or the end of the
/// range of instants where that midnight lies beyond it.
pub open spec fn end_of_day(zone: jiff::tz::TimeZone, day: int) -> int {
    if day < LAST_DAY && in_instants(midnight(zone, day + 1)) {
        midnight(zone, day + 1)
    } else {
        LAST_INSTANT + 1
    }
}

/// The end of the day of a date, on the clocks of a zone.
pub fn day_end(c: Civil, zone: &jiff::tz::TimeZone) -> (r: i64)
    requires
        c.valid(),
    ensures
        r == end_of_day(*zone, c.day_number()),
{
    match day_after(c) {
        Some(next) => match civil_midnight(next, zone) {
            Some(t) => t,
            None => LAST_INSTANT + 1,
        },
        None => LAST_INSTANT + 1,
    }
}

// ---- some spans back ----

/// The first day of the month some months before the one that a day lies in.
pub open spec fn month_back(day: int, count: int) -> int {
    let d = date_of(day);
    let months = 12 * d.0 + d.1 - 1 - count;
    day_number(months / 12, months % 12 + 1, 1)
}

/// The first day of the day, week or month some of them before the one that a day lies in.
pub open spec fn day_back(unit: Unit, day: int, count: int) -> int {
    match unit {
        Unit::Week => monday_of(day) - 7 * count,
        Unit::Month => month_back(day, count),
        _ => day - count,
    }
}

/// The start of the span some spans before the one that `ts` lies in, on the clocks of a
/// zone: whole hours earlier, or at the midnight of its first day. Where that start does
/// not exist it is the first instant.
pub open spec fn start_back(zone: jiff::tz::TimeZone, unit: Unit, ts: int, count: int) -> int {
    let day = day_back(unit, clock(zone, ts) / 86400, count);
    if unit == Unit::Hour {
        if start_exists(zone, unit, ts) {
            start_in(zone, unit, ts) - count * 3600
        } else {
            FIRST_INSTANT as int
        }
    } else if day >= FIRST_DAY && in_instants(midnight(zone, day)) {
        midnight(zone, day)
    } else {
        FIRST_INSTANT as int
    }
}

/// The first day of the month some months before that of a date, at midnight; nothing
/// where that lies before the first date.
fn months_earlier(c: Civil, count: i32) -> (r: Option<Civil>)
    requires
        c.valid(),
        0 <= count <= 100,
    ensures
        r is Some <==> month_back(c.day_number(), count as int) >= FIRST_DAY,
        r matches Some(d) ==> d.valid() && d.seconds() == month_back(
            c.day_number(),
            count as int,
        ) * 86400,
{
    let months: i32 = 12 * (c.year as i32 + 20000) + (c.month as i32) - 1 - count;
    let year: i32 = months / 12 - 20000;
    let month: i32 = months % 12 + 1;
    proof {
        date_of_day_number(c.year as int, c.month as int, c.day as int);
        assert(month_back(c.day_number(), count as int) == day_number(
            year as int,
            month as int,
            1,
        ));
        assert(day_number(-9999, 1, 1) == FIRST_DAY);
    }
    if year < -9999 {
        proof {
            later_date_greater_number(year as int, month as int, 1, -9999, 1, 1);
        }
        return None;
    }
    let d = Civil { year: year as i16, month: month as i8, day: 1, hour: 0, minute: 0, second: 0 };
    proof {
        civil_parts(d);
    }
    Some(d)
}

/// The start of the span some spans before the one that `ts` lies in, on the clocks of a
/// zone.
pub fn start_of_back(unit: Unit, ts: i64, count: i32, zone: &jiff::tz::TimeZone) -> (r: i64)
    requires
        in_instants(ts as int),
        0 <= count <= 100,
    ensures
        r == start_back(*zone, unit, ts as int, count as int),
{
    if unit == Unit::Hour {
        return match start_of(unit, ts, zone) {
            Some(t) => t - (count as i64) * 3600,
            None => FIRST_INSTANT,
        };
    }
    let c = civil_at(ts, zone);
    proof {
        civil_parts(c);
    }
    let first = match unit {
        Unit::Week => days_earlier(c, days_after_monday(c) as i32 + 7 * count),
        Unit::Month => months_earlier(c, count),
        _ => days_earlier(c, count),
    };
    match first {
        Some(d) => match instant_at(d, zone) {
            Some(t) => t,
            None => FIRST_INSTANT,
        },
        None => FIRST_INSTANT,
    }
}

/// A span some spans back starts no later than the span itself, and is its own start.
pub proof fn earlier_spans_start_earlier(unit: Unit, day: int, count: int)
    requires
        0 <= count,
        unit != Unit::Hour,
    ensures
        day_back(unit, day, count) * 86400 <= unit_start(unit, day * 86400),
        unit_start(unit, day_back(unit, day, count) * 86400) == day_back(unit, day, count) * 86400,
{
    whole_days(day);
    let first = day_back(unit, day, count);
    whole_days(first);
    if unit == Unit::Week {
        parts_of(day + 3, 7);
        lemma_fundamental_div_mod_converse(first + 3, 7, (day + 3) / 7 - count, 0);
    }
    if unit == Unit::Month {
        every_day_has_a_date(day);
        let d = date_of(day);
        let months = 12 * d.0 + d.1 - 1 - count;
        let (y, m) = (months / 12, months % 12 + 1);
        date_of_day_number(y, m, 1);
        assert(12 * y + m == 12 * d.0 + d.1 - count);
        if count > 0 {
            later_date_greater_number(y, m, 1, d.0, d.1, 1);
        }
    }
}

/// From the start some days, weeks or months back on lie just the times of those spans and
/// of later ones, on clocks that turn to the first day at its midnight.
pub proof fn spans_back_are_whole(
    zone: jiff::tz::TimeZone,
    unit: Unit,
    last: int,
    count: int,
    ts: int,
)
    requires
        unit != Unit::Hour,
        0 <= count,
        ({
            let first = day_back(unit, clock(zone, last) / 86400, count);
            first >= FIRST_DAY && in_instants(midnight(zone, first)) && day_turns(zone, first)
        }),
    ensures
        start_back(zone, unit, last, count) <= ts <==> day_back(
            unit,
            clock(zone, last) / 86400,
            count,
        ) * 86400 <= unit_start(unit, clock(zone, ts)),
{
    let first = day_back(unit, clock(zone, last) / 86400, count);
    let now = clock(zone, ts);
    earlier_spans_start_earlier(unit, clock(zone, last) / 86400, count);
    assert(now < first * 86400 <==> ts < midnight(zone, first));
    if now >= first * 86400 {
        starts_keep_order(unit, first * 86400, now);
    } else {
        unit_start_is_near(unit, now);
    }
}

/// On the clock of UTC the same holds of hours.
pub proof fn hours_back_are_whole(zone: jiff::tz::TimeZone, last: int, count: int, ts: int)
    requires
        is_utc(zone),
        0 <= count,
        start_exists(zone, Unit::Hour, last),
    ensures
        start_back(zone, Unit::Hour, last, count) <= ts <==> unit_start(Unit::Hour, last) - count
            * 3600 <= unit_start(Unit::Hour, ts),
{
    let first = unit_start(Unit::Hour, last) - count * 3600;
    parts_of(last, 3600);
    parts_of(ts, 3600);
    lemma_fundamental_div_mod_converse(first, 3600, last / 3600 - count, 0);
    if ts >= first {
        starts_keep_order(Unit::Hour, first, ts);
    }
}

/// Whether the clocks of a zone turn to a day at its midnight and do not go back before it
/// afterwards. This does not hold of a midnight that a clock change repeats.
pub open spec fn day_turns(zone: jiff::tz::TimeZone, day: int) -> bool {
    forall|ts: int| #[trigger] clock(zone, ts) < day * 86400 <==> ts < midnight(zone, day)
}

/// Clocks that always stand at one offset turn to every day at its midnight.
pub proof fn steady_clocks_turn_at_midnight(zone: jiff::tz::TimeZone, offset: int, day: int)
    requires
        forall|t: int| #[trigger] zone_offsets(zone)[t] == offset,
        forall|t: int| #[trigger] zone_readings(zone)[t] == offset,
    ensures
        day_turns(zone, day),
        midnight(zone, day + 1) == midnight(zone, day) + 86400,
{
}

/// Whether the start of a span exists: for UTC, that it lies in the range of instants;
/// for the machine's zone, that the instant is far from both ends.
pub open spec fn floor_exists(unit: Unit, ts: int, local: bool) -> bool {
    if local {
        far_from_ends(ts)
    } else {
        FIRST_INSTANT <= unit_start(unit, ts) && ts <= LAST_INSTANT
    }
}

/// Whether `r` is the start of the span that `ts` lies in: on the clock of UTC, or on
/// that of some zone.
pub open spec fn is_floor(unit: Unit, ts: int, local: bool, r: int) -> bool {
    if local {
        exists|zone: jiff::tz::TimeZone| r == #[trigger] start_in(zone, unit, ts)
    } else {
        r == unit_start(unit, ts)
    }
}

/// The start of the span that `ts` lies in, on the machine's clock or that of UTC.
pub fn floor(unit: Unit, ts: i64, local: bool) -> (r: i64)
    requires
        floor_exists(unit, ts as int, local),
    ensures
        is_floor(unit, ts as int, local, r as int),
        ts - 34 * 86400 <= r <= ts + 3 * 86400,
{
    let zone = time_zone(local);
    proof {
        unit_start_is_near(unit, ts as int);
    }
    match start_of(unit, ts, &zone) {
        Some(t) => t,
        None => ts,
    }
}

/// The start of a span lies in that span: it is its own start.
pub proof fn start_is_its_own_start(unit: Unit, civil: int)
    ensures
        unit_start(unit, unit_start(unit, civil)) == unit_start(unit, civil),
{
    let day = civil / 86400;
    match unit {
        Unit::Hour => {
            parts_of(civil, 3600);
            lemma_fundamental_div_mod_converse(civil - civil % 3600, 3600, civil / 3600, 0);
        },
        Unit::Day => {
            whole_days(day);
        },
        Unit::Week => {
            parts_of(day + 3, 7);
            whole_days(monday_of(day));
            lemma_fundamental_div_mod_converse(monday_of(day) + 3, 7, (day + 3) / 7, 0);
        },
        Unit::Month => {
            first_of_month_is_near(day);
            whole_days(first_of_month(day));
        },
    }
}

/// Days, weeks and months start at midnight.
pub proof fn starts_at_midnight(unit: Unit, civil: int)
    requires
        unit != Unit::Hour,
    ensures
        unit_start(unit, civil) == unit_start(unit, civil) / 86400 * 86400,
{
    let day = civil / 86400;
    whole_days(day);
    whole_days(monday_of(day));
    whole_days(first_of_month(day));
}

/// A later moment does not lie in an earlier span.
pub proof fn starts_keep_order(unit: Unit, a: int, b: int)
    requires
        a <= b,
    ensures
        unit_start(unit, a) <= unit_start(unit, b),
{
    let (m, n) = (a / 86400, b / 86400);
    lemma_div_is_ordered(a, b, 86400);
    match unit {
        Unit::Hour => {
            parts_of(a, 3600);
            parts_of(b, 3600);
            lemma_div_is_ordered(a, b, 3600);
        },
        Unit::Day => {},
        Unit::Week => {
            parts_of(m + 3, 7);
            parts_of(n + 3, 7);
            lemma_div_is_ordered(m + 3, n + 3, 7);
        },
        Unit::Month => {
            every_day_has_a_date(m);
            every_day_has_a_date(n);
            let (p, q) = (date_of(m), date_of(n));
            if q.0 < p.0 || (q.0 == p.0 && q.1 < p.1) {
                later_date_greater_number(q.0, q.1, q.2, p.0, p.1, p.2);
            } else if p.0 < q.0 || (p.0 == q.0 && p.1 < q.1) {
                later_date_greater_number(p.0, p.1, 1, q.0, q.1, 1);
            }
        },
    }
}

/// A moment between the start of a span and a moment of that span lies in it.
pub proof fn spans_have_no_gaps(unit: Unit, between: int, civil: int)
    requires
        unit_start(unit, civil) <= between <= civil,
    ensures
        unit_start(unit, between) == unit_start(unit, civil),
{
    starts_keep_order(unit, unit_start(unit, civil), between);
    starts_keep_order(unit, between, civil);
    start_is_its_own_start(unit, civil);
}

/// Hours make up days, and days make up weeks and months: the start of the smaller span
/// lies in the same larger one.
pub proof fn spans_nest(civil: int)
    ensures
        unit_start(Unit::Day, unit_start(Unit::Hour, civil)) == unit_start(Unit::Day, civil),
        unit_start(Unit::Week, unit_start(Unit::Day, civil)) == unit_start(Unit::Week, civil),
        unit_start(Unit::Month, unit_start(Unit::Day, civil)) == unit_start(Unit::Month, civil),
{
    let day = civil / 86400;
    whole_days(day);
    parts_of(civil, 86400);
    let rest = civil % 86400;
    parts_of(rest, 3600);
    lemma_fundamental_div_mod_converse(civil, 3600, day * 24 + rest / 3600, rest % 3600);
    assert(unit_start(Unit::Hour, civil) == day * 86400 + rest / 3600 * 3600);
    lemma_fundamental_div_mod_converse(
        unit_start(Unit::Hour, civil),
        86400,
        day,
        rest / 3600 * 3600,
    );
}

/// An hour has 3600 seconds, a day 86400 and a week seven days, and a month ends at most
/// 31 days after its start.
pub proof fn spans_have_their_length(civil: int)
    ensures
        civil < unit_start(Unit::Hour, civil) + 3600,
        civil < unit_start(Unit::Day, civil) + 86400,
        civil < unit_start(Unit::Week, civil) + 7 * 86400,
        civil < unit_start(Unit::Month, civil) + 31 * 86400,
{
    parts_of(civil, 3600);
    parts_of(civil, 86400);
    parts_of(civil / 86400 + 3, 7);
    unit_start_is_near(Unit::Month, civil);
}

/// A week starts on a Monday: as many whole weeks after Monday 1970-01-05.
pub proof fn weeks_start_on_monday(civil: int)
    ensures
        (unit_start(Unit::Week, civil) / 86400 - day_number(1970, 1, 5)) % 7 == 0,
{
    let day = civil / 86400;
    parts_of(day + 3, 7);
    whole_days(monday_of(day));
    assert(day_number(1970, 1, 5) == 4);
    lemma_fundamental_div_mod_converse(monday_of(day) - 4, 7, (day + 3) / 7 - 1, 0);
}

// ---- dates in text ----

/// A date as `YYYY-MM-DD`.
pub open spec fn date_text(n: int) -> Seq<char> {
    let d = date_of(n);
    zero_padded(d.0, 4) + "-"@ + zero_padded(d.1, 2) + "-"@ + zero_padded(d.2, 2)
}

/// The month of a date as `YYYY-MM`.
pub open spec fn month_text(n: int) -> Seq<char> {
    let d = date_of(n);
    zero_padded(d.0, 4) + "-"@ + zero_padded(d.1, 2)
}

/// Appends the date of an instant, as the clocks of a zone show it.
pub fn push_date(out: &mut String, ts: i64, zone: &jiff::tz::TimeZone)
    requires
        FIRST_INSTANT <= ts <= LAST_INSTANT,
    ensures
        final(out)@ == old(out)@ + date_text(clock(*zone, ts as int) / 86400),
{
    let c = civil_at(ts, zone);
    proof {
        civil_parts(c);
        date_of_day_number(c.year as int, c.month as int, c.day as int);
    }
    push_zero_padded(out, c.year as i64, 4);
    out.append("-");
    push_zero_padded(out, c.month as i64, 2);
    out.append("-");
    push_zero_padded(out, c.day as i64, 2);
    assert(out@ =~= old(out)@ + date_text(clock(*zone, ts as int) / 86400));
}

/// Appends the month of an instant, as the clocks of a zone show it.
pub fn push_month(out: &mut String, ts: i64, zone: &jiff::tz::TimeZone)
    requires
        FIRST_INSTANT <= ts <= LAST_INSTANT,
    ensures
        final(out)@ == old(out)@ + month_text(clock(*zone, ts as int) / 86400),
{
    let c = civil_at(ts, zone);
    proof {
        civil_parts(c);
        date_of_day_number(c.year as int, c.month as int, c.day as int);
    }
    push_zero_padded(out, c.year as i64, 4);
    out.append("-");
    push_zero_padded(out, c.month as i64, 2);
    assert(out@ =~= old(out)@ + month_text(clock(*zone, ts as int) / 86400));
}

/// The day of the month that the clocks of a zone show at an instant.
pub fn day_at(ts: i64, zone: &jiff::tz::TimeZone) -> (r: i64)
    requires
        FIRST_INSTANT <= ts <= LAST_INSTANT,
    ensures
        r == date_of(clock(*zone, ts as int) / 86400).2,
{
    let c = civil_at(ts, zone);
    proof {
        civil_parts(c);
        date_of_day_number(c.year as int, c.month as int, c.day as int);
    }
    c.day as i64
}

/// The hour that the clocks of a zone show at an instant.
pub fn hour_at(ts: i64, zone: &jiff::tz::TimeZone) -> (r: i64)
    requires
        FIRST_INSTANT <= ts <= LAST_INSTANT,
    ensures
        r == clock(*zone, ts as int) / 3600 % 24,
{
    let c = civil_at(ts, zone);
    proof {
        civil_parts(c);
        lemma_fundamental_div_mod_converse(
            c.seconds() / 3600,
            24,
            c.day_number(),
            c.hour as int,
        );
    }
    c.hour as i64
}

// ---- dates are told apart by their text ----

proof fn four_digits(n: int)
    requires
        0 <= n <= 9999,
    ensures
        zero_padded(n, 4) == seq![
            digit_char(n / 1000),
            digit_char(n / 100 % 10),
            digit_char(n / 10 % 10),
            digit_char(n % 10),
        ],
{
    reveal_with_fuel(decimal, 4);
    let k = n as nat;
    assert(k / 10 / 10 == k / 100 && k / 10 / 10 / 10 == k / 1000);
    assert(zero_padded(n, 4) =~= seq![
        digit_char(n / 1000),
        digit_char(n / 100 % 10),
        digit_char(n / 10 % 10),
        digit_char(n % 10),
    ]);
}

proof fn two_digits(n: int)
    requires
        0 <= n <= 99,
    ensures
        zero_padded(n, 2) == seq![digit_char(n / 10), digit_char(n % 10)],
{
    reveal_with_fuel(decimal, 2);
    assert(zero_padded(n, 2) =~= seq![digit_char(n / 10), digit_char(n % 10)]);
}

proof fn digits_differ(a: int, b: int)
    requires
        0 <= a <= 9,
        0 <= b <= 9,
        digit_char(a) == digit_char(b),
    ensures
        a == b,
{
    assert(digit_char(a) as int == 48 + a);
    assert(digit_char(b) as int == 48 + b);
}

proof fn digits_make_the_number(n: int)
    requires
        0 <= n <= 9999,
    ensures
        n == 1000 * (n / 1000) + 100 * (n / 100 % 10) + 10 * (n / 10 % 10) + n % 10,
        0 <= n / 1000 <= 9,
{
    assert(n / 100 / 10 == n / 1000);
    assert(n / 10 / 10 == n / 100);
}

proof fn four_digits_differ(a: int, b: int)
    requires
        0 <= a <= 9999,
        0 <= b <= 9999,
        zero_padded(a, 4) == zero_padded(b, 4),
    ensures
        a == b,
{
    four_digits(a);
    four_digits(b);
    let (s, t) = (zero_padded(a, 4), zero_padded(b, 4));
    assert(s[0] == t[0] && s[1] == t[1] && s[2] == t[2] && s[3] == t[3]);
    digits_make_the_number(a);
    digits_make_the_number(b);
    digits_differ(a / 1000, b / 1000);
    digits_differ(a / 100 % 10, b / 100 % 10);
    digits_differ(a / 10 % 10, b / 10 % 10);
    digits_differ(a % 10, b % 10);
}

proof fn two_digits_differ(a: int, b: int)
    requires
        0 <= a <= 99,
        0 <= b <= 99,
        zero_padded(a, 2) == zero_padded(b, 2),
    ensures
        a == b,
{
    two_digits(a);
    two_digits(b);
    let (s, t) = (zero_padded(a, 2), zero_padded(b, 2));
    assert(s[0] == t[0] && s[1] == t[1]);
    digits_differ(a / 10, b / 10);
    digits_differ(a % 10, b % 10);
}

proof fn date_text_parts(y: int, m: int, d: int)
    requires
        0 <= y <= 9999,
        0 <= m <= 99,
        0 <= d <= 99,
    ensures
        ({
            let s = zero_padded(y, 4) + "-"@ + zero_padded(m, 2) + "-"@ + zero_padded(d, 2);
            &&& s.len() == 10
            &&& s.subrange(0, 4) == zero_padded(y, 4)
            &&& s.subrange(5, 7) == zero_padded(m, 2)
            &&& s.subrange(8, 10) == zero_padded(d, 2)
        }),
{
    four_digits(y);
    two_digits(m);
    two_digits(d);
    reveal_strlit("-");
    let s = zero_padded(y, 4) + "-"@ + zero_padded(m, 2) + "-"@ + zero_padded(d, 2);
    assert(s.subrange(0, 4) =~= zero_padded(y, 4));
    assert(s.subrange(5, 7) =~= zero_padded(m, 2));
    assert(s.subrange(8, 10) =~= zero_padded(d, 2));
}

/// Two days of the years 0 to 9999 with the same date text are the same day.
pub proof fn date_text_tells_days_apart(m: int, n: int)
    requires
        0 <= date_of(m).0 <= 9999,
        0 <= date_of(n).0 <= 9999,
        date_text(m) == date_text(n),
    ensures
        m == n,
{
    every_day_has_a_date(m);
    every_day_has_a_date(n);
    let (a, b) = (date_of(m), date_of(n));
    date_text_parts(a.0, a.1, a.2);
    date_text_parts(b.0, b.1, b.2);
    four_digits_differ(a.0, b.0);
    two_digits_differ(a.1, b.1);
    two_digits_differ(a.2, b.2);
}

// ---- how dates go on ----

/// After 400 years, which have 146097 days, the dates are the same again.
#[verifier::spinoff_prover]
pub proof fn dates_recur_after_400_years(y: int, m: int, d: int)
    ensures
        leap(y + 400) == leap(y),
        month_len(y + 400, m) == month_len(y, m),
        day_number(y + 400, m, d) == day_number(y, m, d) + 146097,
{
    cycles(y, 4, 100);
    cycles(y, 100, 4);
    cycles(y, 400, 1);
    assert(leap(y + 400) == leap(y));
    cycles(y - 1, 4, 100);
    cycles(y - 1, 100, 4);
    cycles(y - 1, 400, 1);
    assert(y + 400 - 1 == y - 1 + 400);
    assert(leap_years(y + 400 - 1) == leap_years(y - 1) + 97);
}

proof fn cycles(n: int, d: int, k: int)
    requires
        0 < d,
        d * k == 400,
    ensures
        (n + 400) / d == n / d + k,
        (n + 400) % d == n % d,
{
    lemma_fundamental_div_mod(n, d);
    lemma_mod_bound(n, d);
    let (q, r) = (n / d, n % d);
    assert(n + 400 == (q + k) * d + r) by (nonlinear_arith)
        requires
            n == d * q + r,
            d * k == 400,
    ;
    lemma_fundamental_div_mod_converse(n + 400, d, q + k, r);
}

/// A year has 365 days, and a leap year one more; a month ends where the next one starts.
#[verifier::spinoff_prover]
pub proof fn years_have_their_days(y: int, m: int)
    requires
        1 <= m <= 12,
    ensures
        day_number(y + 1, 1, 1) - day_number(y, 1, 1) == if leap(y) {
            366int
        } else {
            365
        },
        m < 12 ==> day_number(y, m + 1, 1) == day_number(y, m, 1) + month_len(y, m),
        m == 12 ==> day_number(y + 1, 1, 1) == day_number(y, m, 1) + month_len(y, m),
        28 <= month_len(y, m) <= 31,
        month_len(y, m) < 30 <==> m == 2,
        y % 4 != 0 ==> !leap(y),
        y % 100 == 0 && y % 400 != 0 ==> !leap(y),
        y % 400 == 0 ==> leap(y),
        y % 4 == 0 && y % 100 != 0 ==> leap(y),
{
    year_has_days(y);
}

/// The day after a day is the next of its month, or the first of the next month after the
/// last one.
pub proof fn days_follow_each_other(n: int)
    ensures
        ({
            let (a, b) = (date_of(n), date_of(n + 1));
            ||| b == (a.0, a.1, a.2 + 1)
            ||| a.2 == month_len(a.0, a.1) && b == (a.0, a.1 + 1, 1int)
            ||| a.2 == month_len(a.0, a.1) && a.1 == 12 && b == (a.0 + 1, 1int, 1int)
        }),
        date_of(0) == (1970int, 1int, 1int),
{
    every_day_has_a_date(n);
    let (y, m, d) = date_of(n);
    assert(day_number(1970, 1, 1) == 0);
    date_of_day_number(1970, 1, 1);
    if d < month_len(y, m) {
        date_of_day_number(y, m, d + 1);
    } else if m < 12 {
        years_have_their_days(y, m);
        date_of_day_number(y, m + 1, 1);
    } else {
        years_have_their_days(y, m);
        date_of_day_number(y + 1, 1, 1);
    }
}

/// The text of a date of the years 0 to 9999 holds the year in four digits, the month and
/// the day in two each, with dashes between them; that of a month is the same without the
/// day.
pub proof fn dates_are_read_back(n: int)
    requires
        0 <= date_of(n).0 <= 9999,
    ensures
        ({
            let (s, d) = (date_text(n), date_of(n));
            &&& s.len() == 10
            &&& s[4] == '-' && s[7] == '-'
            &&& digits_value(s.subrange(0, 4), 10) == Some(d.0)
            &&& digits_value(s.subrange(5, 7), 10) == Some(d.1)
            &&& digits_value(s.subrange(8, 10), 10) == Some(d.2)
            &&& month_text(n) == s.take(7)
        }),
{
    every_day_has_a_date(n);
    let (y, m, d) = date_of(n);
    date_text_parts(y, m, d);
    four_digits(y);
    two_digits(m);
    reveal_strlit("-");
    zeros_do_not_change_a_number(y as nat, 4);
    zeros_do_not_change_a_number(m as nat, 2);
    zeros_do_not_change_a_number(d as nat, 2);
    assert(month_text(n) =~= date_text(n).take(7));
}

/// An hour starts on the hour, at most 3599 seconds back; a month on the first of the same
/// month.
pub proof fn hours_and_months_start_at_their_start(civil: int)
    ensures
        unit_start(Unit::Hour, civil) % 3600 == 0,
        0 <= civil - unit_start(Unit::Hour, civil) < 3600,
        ({
            let (a, b) = (
                date_of(unit_start(Unit::Month, civil) / 86400),
                date_of(civil / 86400),
            );
            a.0 == b.0 && a.1 == b.1 && a.2 == 1
        }),
        unit_start(Unit::Day, civil) % 86400 == 0,
        unit_start(Unit::Day, civil) <= civil,
{
    let day = civil / 86400;
    parts_of(civil, 3600);
    parts_of(civil, 86400);
    lemma_fundamental_div_mod_converse(civil - civil % 3600, 3600, civil / 3600, 0);
    lemma_fundamental_div_mod_converse(day * 86400, 86400, day, 0);
    every_day_has_a_date(day);
    let (y, m, d) = date_of(day);
    date_of_day_number(y, m, 1);
    whole_days(first_of_month(day));
}

/// A day ends where the next one starts: no instant lies between them or in both. On the
/// clock of UTC every day has 86400 seconds.
pub proof fn days_end_where_the_next_starts(zone: jiff::tz::TimeZone, day: int)
    requires
        day < LAST_DAY,
        in_instants(midnight(zone, day + 1)),
    ensures
        end_of_day(zone, day) == midnight(zone, day + 1),
        is_utc(zone) ==> end_of_day(zone, day) - midnight(zone, day) == 24 * 60 * 60,
{
}

} // verus!
