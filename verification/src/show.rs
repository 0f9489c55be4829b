//! Usage over time: which rows are shown, how they are added up, and the tables.
use crate::calendar::{
    civil_midnight, clock, date_exists, date_of, date_of_day_number, date_text, day_back, day_end,
    day_number, day_turns, earlier_spans_start_earlier, end_of_day, every_day_has_a_date,
    hours_back_are_whole, in_instants, is_utc, later_date_greater_number, leap_years, midnight,
    spans_back_are_whole, start_back, start_exists, start_in, start_of_back, unit_start,
    unit_start_is_near, Civil, Unit, FIRST_DAY, FIRST_INSTANT, LAST_DAY, LAST_INSTANT,
};
use crate::config::{budget_bytes, bytes_of_budget, counted_period, Config};
use crate::daemon::{budget_used, used_bytes, used_fits};
use crate::db::{
    adverb, bucket, buckets_are_determined, buckets_keep_the_bytes, buckets_nest,
    buckets_of_buckets_are_the_same, fits, has_origin, is_bucketed, period_adverb, rest, same_rows,
    same_rows_same_spans, spans_fit, starts_exist, starts_in_itself, starts_within, sum_all,
    utc_spans_hold_their_starts, Row,
};
use crate::double::{
    all_of_ten_is_ten, bits_positive, int_double, integers_are_not_rounded, nearest_int,
    nearest_parts_are_near, nothing_is_no_part, of_int, over, product, push_nearest, quotient,
    quotient_reaches_one, times, whole_products_are_exact, whole_quotients_are_exact, INFINITY_BITS,
};
use crate::fmtx::{
    bar, bar_of, bytes_text, filled, fmt_bytes, fmt_date_in, moment_text,
    parts_fill_the_nearest_cells,
};
use crate::sort::{comes_before, is_order, order, order_names_every_place};
use crate::text::{
    columns_hold_their_text, decimal, flush_left, flush_right, magnitude, push_left, push_repeated,
    push_right, repeated, same_text,
};
use vstd::arithmetic::div_mod::lemma_fundamental_div_mod_converse;
use vstd::prelude::*;
use vstd::string::*;

verus! {

// ---- periods ----

/// The length of the buckets that are shown.
#[derive(Clone, Copy, PartialEq, Eq, Structural, Debug)]
pub enum Period {
    Hour,
    Day,
    Week,
    Month,
}

/// What a period is called.
pub open spec fn period_name(period: Period) -> Seq<char> {
    match period {
        Period::Hour => "hour"@,
        Period::Day => "day"@,
        Period::Week => "week"@,
        Period::Month => "month"@,
    }
}

/// What a period is called.
pub fn period_word(period: Period) -> (r: &'static str)
    ensures
        r@ == period_name(period),
{
    match period {
        Period::Hour => "hour",
        Period::Day => "day",
        Period::Week => "week",
        Period::Month => "month",
    }
}

/// How many hours, days, weeks or months are shown.
pub open spec fn shown_bins(period: Period) -> int {
    match period {
        Period::Hour => 24,
        Period::Day => 30,
        Period::Week => 12,
        Period::Month => 12,
    }
}

/// The span of civil time that a period is.
pub open spec fn bin_unit(period: Period) -> Unit {
    match period {
        Period::Hour => Unit::Hour,
        Period::Day => Unit::Day,
        Period::Week => Unit::Week,
        Period::Month => Unit::Month,
    }
}

/// Where what is shown starts: with the first of the last 24 hours, 30 days, 12 weeks or 12
/// months, the one that `last` lies in counted in.
pub open spec fn shown_from(period: Period, zone: jiff::tz::TimeZone, last: int) -> int {
    start_back(zone, bin_unit(period), last, shown_bins(period) - 1)
}

/// The table that holds the rows: weeks are made of days.
pub open spec fn shown_table(period: Period) -> Seq<char> {
    match period {
        Period::Hour => "hourly"@,
        Period::Day => "daily"@,
        Period::Week => "daily"@,
        Period::Month => "monthly"@,
    }
}

/// Where the rows are looked for: the table, and the times from one up to another.
pub struct Plan {
    pub table: &'static str,
    pub from: i64,
    pub to: i64,
}

/// The last time that is shown: now, or the second before the end of a date that was asked
/// for.
pub open spec fn last_shown(end: int, asked: bool) -> int {
    if asked {
        end - 1
    } else {
        end
    }
}

/// Where the rows are looked for that end at a time: up to now and with it, or up to the
/// end of a date that was asked for. Nothing where the last time lies outside the range of
/// instants.
pub fn plan(period: Period, end: i64, asked: bool, zone: &jiff::tz::TimeZone) -> (r: Option<Plan>)
    ensures
        ({
            let last = last_shown(end as int, asked);
            &&& r is Some <==> in_instants(last)
            &&& r matches Some(p) ==> is_plan(p, period, end as int, asked, *zone)
            &&& r matches Some(p) ==> {
                &&& p.table@ == shown_table(period)
                &&& p.from == shown_from(period, *zone, last)
                &&& p.to == last + 1
            }
        }),
{
    let last = if asked {
        match end.checked_sub(1) {
            Some(t) => t,
            None => {
                return None;
            },
        }
    } else {
        end
    };
    if last < FIRST_INSTANT || last > LAST_INSTANT {
        return None;
    }
    let (table, unit, back): (&'static str, Unit, i32) = match period {
        Period::Hour => ("hourly", Unit::Hour, 23),
        Period::Day => ("daily", Unit::Day, 29),
        Period::Week => ("daily", Unit::Week, 11),
        Period::Month => ("monthly", Unit::Month, 11),
    };
    Some(Plan { table, from: start_of_back(unit, last, back, zone), to: last + 1 })
}

/// What is shown of days, weeks and months is whole ones, the last 30 days, the last 12
/// weeks from Monday on or the last 12 months, on clocks that turn to the first day at its
/// midnight.
pub proof fn whole_bins_are_shown(
    period: Period,
    zone: jiff::tz::TimeZone,
    last: int,
    ts: int,
)
    requires
        period != Period::Hour,
        ({
            let day = clock(zone, last) / 86400;
            let first = day_back(bin_unit(period), day, shown_bins(period) - 1);
            first >= FIRST_DAY && in_instants(midnight(zone, first)) && day_turns(zone, first)
        }),
    ensures
        ({
            let day = clock(zone, last) / 86400;
            let first = day_back(bin_unit(period), day, shown_bins(period) - 1);
            shown_from(period, zone, last) <= ts <==> first * 86400 <= unit_start(
                bin_unit(period),
                clock(zone, ts),
            )
        }),
{
    spans_back_are_whole(zone, bin_unit(period), last, shown_bins(period) - 1, ts);
}

/// What is shown of hours is whole ones, the last 24, on the clock of UTC.
pub proof fn whole_hours_are_shown(zone: jiff::tz::TimeZone, last: int, ts: int)
    requires
        is_utc(zone),
        start_exists(zone, Unit::Hour, last),
    ensures
        shown_from(Period::Hour, zone, last) <= ts <==> unit_start(Unit::Hour, last) - 23 * 3600
            <= unit_start(Unit::Hour, ts),
{
    hours_back_are_whole(zone, last, 23, ts);
}

// ---- dates that are asked for ----

/// `jiff::Error`, why a text is no date.
#[verifier::external_type_specification]
#[verifier::external_body]
pub struct ExDateError(jiff::Error);

/// The year, month and day that `jiff::civil::Date` reads from a text; nothing where it
/// is no date.
pub uninterp spec fn date_in(text: Seq<char>) -> Option<(int, int, int)>;

/// `<jiff::civil::Date as std::str::FromStr>::from_str`: the date that a text holds, at
/// midnight. A date of `jiff` exists, from year -9999 to year 9999. A date of the years 0
/// to 9999 that is written as `YYYY-MM-DD` is read as that date.
#[verifier::external_body]
fn read_date(text: &str) -> (r: Result<Civil, jiff::Error>)
    ensures
        r is Err ==> date_in(text@) is None,
        r matches Ok(c) ==> {
            &&& date_in(text@) == Some((c.year as int, c.month as int, c.day as int))
            &&& c.valid()
            &&& c.hour == 0 && c.minute == 0 && c.second == 0
        },
        r matches Ok(c) ==> forall|n: int|
            0 <= date_of(n).0 <= 9999 && text@ == #[trigger] date_text(n) ==> (
            c.year as int,
            c.month as int,
            c.day as int,
            ) == date_of(n),
        r is Err ==> forall|n: int| 0 <= date_of(n).0 <= 9999 ==> text@ != #[trigger] date_text(n),
{
    let d: jiff::civil::Date = text.parse()?;
    let (year, month, day) = (d.year(), d.month(), d.day());
    Ok(Civil { year, month, day, hour: 0, minute: 0, second: 0 })
}

/// Why a date cannot be used: it is none, or its midnight lies outside the range of
/// instants.
#[derive(Clone, Copy, PartialEq, Eq, Structural, Debug)]
pub enum DateError {
    NotADate,
    OutOfRange,
}

/// The midnight at which a date starts in a zone.
pub open spec fn date_start(date: (int, int, int), zone: jiff::tz::TimeZone) -> int {
    midnight(zone, day_number(date.0, date.1, date.2))
}

/// The midnight at which a date starts in a zone.
pub open spec fn start_of_text(
    text: Seq<char>,
    zone: jiff::tz::TimeZone,
) -> Result<int, DateError> {
    match date_in(text) {
        Some(d) => if in_instants(date_start(d, zone)) {
            Ok(date_start(d, zone))
        } else {
            Err(DateError::OutOfRange)
        },
        None => Err(DateError::NotADate),
    }
}

/// The midnight at which a date starts in a zone. A day of the years 0 to 9999 can be
/// asked for by its date as it is shown.
pub fn date_midnight(text: &str, zone: &jiff::tz::TimeZone) -> (r: Result<i64, DateError>)
    ensures
        match start_of_text(text@, *zone) {
            Ok(t) => r == Ok::<i64, DateError>(t as i64) && in_instants(t),
            Err(e) => r == Err::<i64, DateError>(e),
        },
        forall|n: int|
            0 <= date_of(n).0 <= 9999 && text@ == #[trigger] date_text(n) ==> start_of_text(
                text@,
                *zone,
            ) == if in_instants(midnight(*zone, n)) {
                Ok::<int, DateError>(midnight(*zone, n))
            } else {
                Err(DateError::OutOfRange)
            },
{
    let date = read_date(text);
    proof {
        assert forall|n: int| 0 <= date_of(n).0 <= 9999 && text@ == #[trigger] date_text(
            n,
        ) implies start_of_text(text@, *zone) == if in_instants(midnight(*zone, n)) {
            Ok::<int, DateError>(midnight(*zone, n))
        } else {
            Err(DateError::OutOfRange)
        } by {
            every_day_has_a_date(n);
        }
    }
    match date {
        Ok(c) => match civil_midnight(c, zone) {
            Some(t) => Ok(t),
            None => Err(DateError::OutOfRange),
        },
        Err(_) => Err(DateError::NotADate),
    }
}

/// The end of the day of a date in a zone.
pub open spec fn end_of_text(
    text: Seq<char>,
    zone: jiff::tz::TimeZone,
) -> Result<int, DateError> {
    match (date_in(text), start_of_text(text, zone)) {
        (Some(d), Ok(_)) => Ok(end_of_day(zone, day_number(d.0, d.1, d.2))),
        (_, Err(e)) => Err(e),
        (None, Ok(_)) => Err(DateError::NotADate),
    }
}

/// The end of the day of a date in a zone: the date is counted in.
pub fn parse_date(text: &str, zone: &jiff::tz::TimeZone) -> (r: Result<i64, DateError>)
    ensures
        match end_of_text(text@, *zone) {
            Ok(t) => r == Ok::<i64, DateError>(t as i64),
            Err(e) => r == Err::<i64, DateError>(e),
        },
        forall|n: int|
            0 <= date_of(n).0 <= 9999 && text@ == #[trigger] date_text(n) ==> end_of_text(
                text@,
                *zone,
            ) == if in_instants(midnight(*zone, n)) {
                Ok::<int, DateError>(end_of_day(*zone, n))
            } else {
                Err(DateError::OutOfRange)
            },
{
    let date = read_date(text);
    proof {
        assert forall|n: int| 0 <= date_of(n).0 <= 9999 && text@ == #[trigger] date_text(
            n,
        ) implies end_of_text(text@, *zone) == if in_instants(midnight(*zone, n)) {
            Ok::<int, DateError>(end_of_day(*zone, n))
        } else {
            Err(DateError::OutOfRange)
        } by {
            every_day_has_a_date(n);
        }
    }
    match date {
        Ok(c) => match civil_midnight(c, zone) {
            Some(_) => Ok(day_end(c, zone)),
            None => Err(DateError::OutOfRange),
        },
        Err(_) => Err(DateError::NotADate),
    }
}

/// The times from the start of one date to the end of the day of another, which is
/// counted in.
pub fn date_range(from: &str, to: &str, zone: &jiff::tz::TimeZone) -> (r: Result<
    (i64, i64),
    DateError,
>)
    ensures
        match (start_of_text(from@, *zone), end_of_text(to@, *zone)) {
            (Ok(f), Ok(t)) => r == Ok::<(i64, i64), DateError>((f as i64, t as i64)),
            (Err(e), _) => r == Err::<(i64, i64), DateError>(e),
            (Ok(_), Err(e)) => r == Err::<(i64, i64), DateError>(e),
        },
{
    match date_midnight(from, zone) {
        Ok(f) => match parse_date(to, zone) {
            Ok(t) => Ok((f, t)),
            Err(e) => Err(e),
        },
        Err(e) => Err(e),
    }
}

/// An export holds the samples of its days and no others, both dates counted in, on clocks
/// that turn to these days at their midnights.
pub proof fn export_holds_its_days(zone: jiff::tz::TimeZone, from: int, to: int, ts: int)
    requires
        in_instants(ts),
        in_instants(midnight(zone, to)),
        to < LAST_DAY,
        day_turns(zone, from),
        day_turns(zone, to),
        day_turns(zone, to + 1),
    ensures
        from <= clock(zone, ts) / 86400 <= to <==> midnight(zone, from) <= ts < end_of_day(
            zone,
            to,
        ),
{
    let next = midnight(zone, to + 1);
    assert(clock(zone, next) < (to + 1) * 86400 <==> next < next);
    assert(clock(zone, next) < to * 86400 <==> next < midnight(zone, to));
    assert(clock(zone, ts) < from * 86400 <==> ts < midnight(zone, from));
    assert(clock(zone, ts) < (to + 1) * 86400 <==> ts < next);
}

/// The day that is asked for is shown, all of it, on clocks that turn to it, to the next day
/// and to the first day that is shown at their midnights. By hours it is where the last
/// hour of the day starts at most 23 hours after its midnight.
pub proof fn asked_day_is_shown(
    zone: jiff::tz::TimeZone,
    day: int,
    ts: int,
    period: Period,
)
    requires
        in_instants(ts),
        in_instants(midnight(zone, day)),
        day < LAST_DAY,
        day_turns(zone, day),
        day_turns(zone, day + 1),
        period != Period::Hour ==> day_turns(
            zone,
            day_back(bin_unit(period), day, shown_bins(period) - 1),
        ),
        period == Period::Hour ==> start_in(zone, Unit::Hour, end_of_day(zone, day) - 1) <= midnight(
            zone,
            day,
        ) + 23 * 3600,
        clock(zone, ts) / 86400 == day,
    ensures
        shown_from(period, zone, end_of_day(zone, day) - 1) <= ts < end_of_day(zone, day),
{
    export_holds_its_days(zone, day, day, ts);
    if period != Period::Hour {
        let last = end_of_day(zone, day) - 1;
        let unit = bin_unit(period);
        let first = day_back(unit, day, shown_bins(period) - 1);
        assert(clock(zone, last) < day * 86400 <==> last < midnight(zone, day));
        assert(clock(zone, last) < (day + 1) * 86400 <==> last < midnight(zone, day + 1));
        let next = midnight(zone, day + 1);
        assert(clock(zone, next) < (day + 1) * 86400 <==> next < next);
        assert(clock(zone, next) < day * 86400 <==> next < midnight(zone, day));
        assert(clock(zone, last) / 86400 == day);
        earlier_spans_start_earlier(unit, day, shown_bins(period) - 1);
        unit_start_is_near(unit, day * 86400);
        assert(clock(zone, ts) < first * 86400 <==> ts < midnight(zone, first));
    }
}

/// Nothing later than the day that is asked for is shown, on clocks that turn to it and to
/// the next day at their midnights.
pub proof fn nothing_later_is_shown(zone: jiff::tz::TimeZone, day: int, ts: int)
    requires
        in_instants(ts),
        in_instants(midnight(zone, day)),
        day < LAST_DAY,
        day_turns(zone, day),
        day_turns(zone, day + 1),
        ts < end_of_day(zone, day),
    ensures
        clock(zone, ts) / 86400 <= day,
{
    if ts >= midnight(zone, day) {
        export_holds_its_days(zone, day, day, ts);
    } else {
        assert(clock(zone, ts) < day * 86400);
    }
}

// ---- rows ----

/// The rows of days added up by weeks.
pub fn rebucket_week(rows: &Vec<Row>, zone: &jiff::tz::TimeZone) -> (r: Option<Vec<Row>>)
    ensures
        r is Some <==> starts_exist(rows@, *zone, Unit::Week) && spans_fit(
            rows@,
            *zone,
            Unit::Week,
        ),
        r matches Some(out) ==> is_bucketed(out@, rows@, *zone, Unit::Week),
{
    bucket(rows, Unit::Week, zone)
}

/// The span by which samples are added up first.
pub open spec fn first_unit(period: Period) -> Unit {
    match period {
        Period::Hour => Unit::Hour,
        Period::Day => Unit::Day,
        Period::Week => Unit::Day,
        Period::Month => Unit::Month,
    }
}

/// Whether rows are the samples added up by the buckets of a period: weeks by way of
/// days.
pub open spec fn is_shown(
    out: Seq<Row>,
    samples: Seq<Row>,
    period: Period,
    zone: jiff::tz::TimeZone,
) -> bool {
    if period == Period::Week {
        exists|days: Seq<Row>| #[trigger]
            is_bucketed(days, samples, zone, Unit::Day) && is_bucketed(out, days, zone, Unit::Week)
    } else {
        is_bucketed(out, samples, zone, first_unit(period))
    }
}

/// The samples added up by the buckets of a period; nothing where a bucket has no start
/// or a sum does not fit.
pub fn bucket_samples(samples: &Vec<Row>, period: Period, zone: &jiff::tz::TimeZone) -> (r: Option<
    Vec<Row>,
>)
    ensures
        r matches Some(out) ==> is_shown(out@, samples@, period, *zone),
        period != Period::Week ==> (r is Some <==> starts_exist(samples@, *zone, first_unit(period))
            && spans_fit(samples@, *zone, first_unit(period))),
        period == Period::Week ==> (r is Some <==> starts_exist(samples@, *zone, Unit::Day)
            && spans_fit(samples@, *zone, Unit::Day) && forall|days: Seq<Row>| #[trigger]
            is_bucketed(days, samples@, *zone, Unit::Day) ==> starts_exist(days, *zone, Unit::Week)
                && spans_fit(days, *zone, Unit::Week)),
{
    let unit = match period {
        Period::Hour => Unit::Hour,
        Period::Day => Unit::Day,
        Period::Week => Unit::Day,
        Period::Month => Unit::Month,
    };
    let out = match bucket(samples, unit, zone) {
        Some(v) => v,
        None => {
            return None;
        },
    };
    if period == Period::Week {
        let r = rebucket_week(&out, zone);
        proof {
            assert(is_bucketed(out@, samples@, *zone, Unit::Day));
            assert forall|days: Seq<Row>| #[trigger]
                is_bucketed(days, samples@, *zone, Unit::Day) implies (starts_exist(
                days,
                *zone,
                Unit::Week,
            ) <==> starts_exist(out@, *zone, Unit::Week)) && (spans_fit(days, *zone, Unit::Week)
                <==> spans_fit(out@, *zone, Unit::Week)) by {
                buckets_are_determined(days, out@, samples@, *zone, Unit::Day);
                same_rows_same_spans(days, out@, *zone, Unit::Week);
                same_rows_same_spans(out@, days, *zone, Unit::Week);
            }
        }
        r
    } else {
        Some(out)
    }
}

/// The rows of a rollup as they are shown: days added up by weeks where weeks are asked
/// for. Nothing where that cannot be worked out.
pub fn rolled_rows(rows: Vec<Row>, period: Period, zone: &jiff::tz::TimeZone) -> (r: Option<
    Vec<Row>,
>)
    ensures
        period != Period::Week ==> r == Some(rows),
        period == Period::Week ==> {
            &&& r is Some <==> starts_exist(rows@, *zone, Unit::Week) && spans_fit(
                rows@,
                *zone,
                Unit::Week,
            )
            &&& r matches Some(out) ==> is_bucketed(out@, rows@, *zone, Unit::Week)
        },
{
    if period == Period::Week {
        rebucket_week(&rows, zone)
    } else {
        Some(rows)
    }
}

/// Adding weeks up by weeks again changes nothing, where the weeks start on the clocks of
/// the zone; on that of UTC they do.
pub proof fn weeks_of_weeks_are_the_same(
    once: Seq<Row>,
    twice: Seq<Row>,
    rows: Seq<Row>,
    zone: jiff::tz::TimeZone,
)
    requires
        is_bucketed(once, rows, zone, Unit::Week),
        is_bucketed(twice, once, zone, Unit::Week),
        is_utc(zone) || forall|i: int|
            0 <= i < rows.len() ==> starts_in_itself(
                zone,
                Unit::Week,
                (#[trigger] rows[i]).ts as int,
            ),
    ensures
        same_rows(once, twice),
{
    assert forall|i: int| 0 <= i < rows.len() implies starts_in_itself(
        zone,
        Unit::Week,
        (#[trigger] rows[i]).ts as int,
    ) by {
        if is_utc(zone) {
            utc_spans_hold_their_starts(zone, Unit::Week, rows[i].ts as int);
        }
    }
    buckets_of_buckets_are_the_same(once, twice, rows, zone, Unit::Week);
}

/// Weeks by way of days are the weeks of the samples, where the midnights of the days lie
/// in the same weeks; on the clock of UTC they do.
pub proof fn weeks_by_days_are_weeks(out: Seq<Row>, samples: Seq<Row>, zone: jiff::tz::TimeZone)
    requires
        is_shown(out, samples, Period::Week, zone),
        is_utc(zone) || forall|i: int|
            0 <= i < samples.len() ==> starts_within(
                zone,
                Unit::Day,
                Unit::Week,
                (#[trigger] samples[i]).ts as int,
            ),
    ensures
        is_bucketed(out, samples, zone, Unit::Week),
{
    assert forall|i: int| 0 <= i < samples.len() implies starts_within(
        zone,
        Unit::Day,
        Unit::Week,
        (#[trigger] samples[i]).ts as int,
    ) by {
        if is_utc(zone) {
            utc_spans_hold_their_starts(zone, Unit::Day, samples[i].ts as int);
        }
    }
    let days = choose|days: Seq<Row>| #[trigger]
        is_bucketed(days, samples, zone, Unit::Day) && is_bucketed(out, days, zone, Unit::Week);
    buckets_nest(days, out, samples, zone, Unit::Day, Unit::Week);
}

// ---- tables ----

/// A line of the table of usage.
pub open spec fn usage_columns(
    date: Seq<char>,
    down: Seq<char>,
    up: Seq<char>,
    total: Seq<char>,
    lan: Seq<char>,
    wan: Seq<char>,
) -> Seq<char> {
    flush_left(date, 16) + " "@ + flush_right(down, 10) + " "@ + flush_right(up, 10) + " "@
        + flush_right(total, 10) + " "@ + flush_right(lan, 16) + " "@ + flush_right(wan, 16)
}

fn usage_line(date: &str, down: &str, up: &str, total: &str, lan: &str, wan: &str) -> (r: String)
    ensures
        r@ == usage_columns(date@, down@, up@, total@, lan@, wan@),
{
    let mut r = String::new();
    push_left(&mut r, date, 16);
    r.append(" ");
    push_right(&mut r, down, 10);
    r.append(" ");
    push_right(&mut r, up, 10);
    r.append(" ");
    push_right(&mut r, total, 10);
    r.append(" ");
    push_right(&mut r, lan, 16);
    r.append(" ");
    push_right(&mut r, wan, 16);
    assert(r@ =~= usage_columns(date@, down@, up@, total@, lan@, wan@));
    r
}

/// The heading of the table of usage.
pub open spec fn usage_heading() -> Seq<char> {
    usage_columns("DATE"@, "DOWN"@, "UP"@, "TOTAL"@, "LAN ↓/↑"@, "WAN ↓/↑"@)
}

/// Two byte counts with a stroke between them.
pub open spec fn pair_text(a: int, b: int, dec: bool) -> Seq<char> {
    bytes_text(a, dec) + "/"@ + bytes_text(b, dec)
}

fn pair(a: i64, b: i64, dec: bool) -> (r: String)
    ensures
        r@ == pair_text(a as int, b as int, dec),
{
    let mut r = fmt_bytes(a, dec);
    r.append("/");
    r.append(fmt_bytes(b, dec).as_str());
    r
}

/// The line of a row: its date, the bytes received, sent and both, and the local and
/// outside ones.
pub open spec fn row_line(
    row: Row,
    zone: jiff::tz::TimeZone,
    with_time: bool,
    dec: bool,
) -> Seq<char> {
    usage_columns(
        moment_text(zone, row.ts as int, with_time),
        bytes_text(row.rx as int, dec),
        bytes_text(row.tx as int, dec),
        bytes_text(row.rx + row.tx, dec),
        pair_text(row.lan_rx as int, row.lan_tx as int, dec),
        pair_text(
            rest(row.rx as int, row.lan_rx as int),
            rest(row.tx as int, row.lan_tx as int),
            dec,
        ),
    )
}

/// Whether a text ends with another.
pub open spec fn ends_with(s: Seq<char>, tail: Seq<char>) -> bool {
    s.len() >= tail.len() && s.skip(s.len() - tail.len()) == tail
}

/// Whether a row can be shown: its time lies in the range of instants and its sums fit.
pub open spec fn can_show(row: Row) -> bool {
    in_instants(row.ts as int) && row.small()
}

/// Whether the sums of a row fit.
pub fn is_small(row: &Row) -> (r: bool)
    ensures
        r == row.small(),
{
    row.rx.checked_add(row.tx).is_some() && row.rx.checked_sub(row.lan_rx).is_some()
        && row.tx.checked_sub(row.lan_tx).is_some()
}

/// The lines of the table of usage; nothing where a row cannot be shown.
pub fn usage_table(
    rows: &Vec<Row>,
    zone: &jiff::tz::TimeZone,
    with_time: bool,
    dec: bool,
) -> (r: Option<Vec<String>>)
    ensures
        r is Some <==> forall|i: int| 0 <= i < rows.len() ==> can_show(#[trigger] rows@[i]),
        r matches Some(v) ==> {
            &&& v@.len() == rows@.len() + 1
            &&& v@[0]@ == usage_heading()
            &&& forall|i: int|
                0 <= i < rows@.len() ==> (#[trigger] v@[i + 1])@ == row_line(
                    rows@[i],
                    *zone,
                    with_time,
                    dec,
                )
            &&& forall|i: int, w_rx: int, w_tx: int|
                #![trigger v@[i + 1], bytes_text(w_rx, dec), bytes_text(w_tx, dec)]
                0 <= i < rows@.len() && (if rows@[i].lan_rx <= rows@[i].rx {
                    rows@[i].lan_rx + w_rx == rows@[i].rx
                } else {
                    w_rx == 0
                }) && (if rows@[i].lan_tx <= rows@[i].tx {
                    rows@[i].lan_tx + w_tx == rows@[i].tx
                } else {
                    w_tx == 0
                }) ==> ends_with(
                    v@[i + 1]@,
                    bytes_text(w_rx, dec) + "/"@ + bytes_text(w_tx, dec),
                )
        },
{
    let mut v: Vec<String> = Vec::new();
    v.push(usage_line("DATE", "DOWN", "UP", "TOTAL", "LAN ↓/↑", "WAN ↓/↑"));
    let mut i: usize = 0;
    while i < rows.len()
        invariant
            i <= rows.len(),
            v.len() == i + 1,
            v@[0]@ == usage_heading(),
            forall|k: int| 0 <= k < i ==> can_show(#[trigger] rows@[k]),
            forall|k: int|
                0 <= k < i ==> (#[trigger] v@[k + 1])@ == row_line(
                    rows@[k],
                    *zone,
                    with_time,
                    dec,
                ),
        decreases rows.len() - i,
    {
        let row = &rows[i];
        if row.ts < FIRST_INSTANT || row.ts > LAST_INSTANT || !is_small(row) {
            assert(!can_show(rows@[i as int]));
            return None;
        }
        let date = fmt_date_in(row.ts, zone, with_time);
        let down = fmt_bytes(row.rx, dec);
        let up = fmt_bytes(row.tx, dec);
        let total = fmt_bytes(row.total(), dec);
        let lan = pair(row.lan_rx, row.lan_tx, dec);
        let wan = pair(row.wan_rx(), row.wan_tx(), dec);
        let ghost had = v@;
        v.push(
            usage_line(
                date.as_str(),
                down.as_str(),
                up.as_str(),
                total.as_str(),
                lan.as_str(),
                wan.as_str(),
            ),
        );
        proof {
            assert forall|k: int| 0 <= k <= i implies (#[trigger] v@[k + 1])@ == row_line(
                rows@[k],
                *zone,
                with_time,
                dec,
            ) by {
                if k < i {
                    assert(v@[k + 1] == had[k + 1]);
                }
            }
        }
        i = i + 1;
    }
    proof {
        assert forall|i: int, w_rx: int, w_tx: int|
            #![trigger v@[i + 1], bytes_text(w_rx, dec), bytes_text(w_tx, dec)]
            0 <= i < rows@.len() && (if rows@[i].lan_rx <= rows@[i].rx {
                rows@[i].lan_rx + w_rx == rows@[i].rx
            } else {
                w_rx == 0
            }) && (if rows@[i].lan_tx <= rows@[i].tx {
                rows@[i].lan_tx + w_tx == rows@[i].tx
            } else {
                w_tx == 0
            }) implies ends_with(
            v@[i + 1]@,
            bytes_text(w_rx, dec) + "/"@ + bytes_text(w_tx, dec),
        ) by {
            lines_tell_local_and_outside_bytes(rows@[i], *zone, with_time, dec, w_rx, w_tx);
        }
    }
    Some(v)
}

// ---- the budget line ----

/// The bytes of a row that count against a budget.
pub open spec fn row_used(row: Row, wan_only: bool) -> int {
    used_bytes(wan_only, row.rx as int, row.tx as int, row.lan_rx as int, row.lan_tx as int)
}

/// Whether the bytes of a row that count against a budget can be worked out.
pub open spec fn row_used_fits(row: Row, wan_only: bool) -> bool {
    used_fits(wan_only, row.rx as int, row.tx as int, row.lan_rx as int, row.lan_tx as int)
}

/// The bytes of all rows that count against a budget.
pub open spec fn rows_used(rows: Seq<Row>, wan_only: bool) -> int
    decreases rows.len(),
{
    if rows.len() == 0 {
        0
    } else {
        rows_used(rows.drop_last(), wan_only) + row_used(rows.last(), wan_only)
    }
}

/// Whether the bytes of each row, and the running sums of all, can be worked out.
pub open spec fn rows_used_fit(rows: Seq<Row>, wan_only: bool) -> bool {
    &&& forall|i: int| 0 <= i < rows.len() ==> row_used_fits(#[trigger] rows[i], wan_only)
    &&& forall|n: int| 0 <= n <= rows.len() ==> fits(rows_used(#[trigger] rows.take(n), wan_only))
}

/// The bytes of all rows that count against a budget; nothing where a sum does not fit.
pub fn used_in(rows: &Vec<Row>, basis: &str) -> (r: Option<i64>)
    ensures
        r is Some <==> rows_used_fit(rows@, basis@ == "wan"@),
        r matches Some(n) ==> n == rows_used(rows@, basis@ == "wan"@),
{
    let ghost wan_only = basis@ == "wan"@;
    let mut sum: i64 = 0;
    let mut i: usize = 0;
    assert(rows@.take(0) =~= Seq::empty());
    while i < rows.len()
        invariant
            i <= rows.len(),
            wan_only == (basis@ == "wan"@),
            sum == rows_used(rows@.take(i as int), wan_only),
            forall|k: int| 0 <= k < i ==> row_used_fits(#[trigger] rows@[k], wan_only),
            forall|n: int| 0 <= n <= i ==> fits(rows_used(#[trigger] rows@.take(n), wan_only)),
        decreases rows.len() - i,
    {
        assert(rows@.take(i + 1).drop_last() =~= rows@.take(i as int));
        let row = &rows[i];
        let used = match budget_used(basis, row.rx, row.tx, row.lan_rx, row.lan_tx) {
            Some(n) => n,
            None => {
                assert(!row_used_fits(rows@[i as int], wan_only));
                return None;
            },
        };
        match sum.checked_add(used) {
            Some(n) => {
                sum = n;
            },
            None => {
                assert(!fits(rows_used(rows@.take(i + 1), wan_only)));
                return None;
            },
        }
        i = i + 1;
    }
    assert(rows@.take(i as int) =~= rows@);
    Some(sum)
}

/// The bar of a budget: empty where the use is negative or there is nothing to use, full
/// where a budget of nothing is used.
pub open spec fn budget_bar(used: int, budget: int) -> Seq<char> {
    if used <= 0 {
        bar_of(0, 10)
    } else if budget == 0 {
        bar_of(10, 10)
    } else {
        bar_of(filled(quotient(int_double(used as nat), int_double(budget as nat)), 10), 10)
    }
}

/// A hundred times a quotient, as the nearest whole number.
pub open spec fn percent_of(a: nat, b: nat) -> nat {
    nearest_int(product(quotient(int_double(a), int_double(b)), int_double(100)))
}

/// The percent of a budget that are used, without digits behind the point.
pub open spec fn percent_text(used: int, budget: int) -> Seq<char> {
    if budget == 0 {
        if used == 0 {
            "NaN"@
        } else if used > 0 {
            "inf"@
        } else {
            "-inf"@
        }
    } else if used < 0 {
        "-"@ + decimal(percent_of((-used) as nat, budget as nat))
    } else {
        decimal(percent_of(used as nat, budget as nat))
    }
}

/// What is shown of a budget: its period, the use and the budget, a bar and the percent.
pub open spec fn budget_line_text(
    period: Seq<char>,
    used: int,
    budget: int,
    dec: bool,
) -> Seq<char> {
    "Budget ("@ + adverb(period) + "): "@ + bytes_text(used, dec) + "/"@ + bytes_text(budget, dec)
        + " "@ + budget_bar(used, budget) + " "@ + percent_text(used, budget) + "%"@
}

fn push_percent(out: &mut String, used: i64, budget: i64)
    requires
        budget >= 0,
    ensures
        final(out)@ == old(out)@ + percent_text(used as int, budget as int),
{
    if budget == 0 {
        if used == 0 {
            out.append("NaN");
        } else if used > 0 {
            out.append("inf");
        } else {
            out.append("-inf");
        }
    } else {
        if used < 0 {
            out.append("-");
        }
        let frac = over(of_int(magnitude(used)), of_int(budget as u64));
        push_nearest(out, times(frac, of_int(100)));
        assert(out@ =~= old(out)@ + percent_text(used as int, budget as int));
    }
}

fn push_budget_bar(out: &mut String, used: i64, budget: i64)
    requires
        budget >= 0,
    ensures
        final(out)@ == old(out)@ + budget_bar(used as int, budget as int),
{
    if used <= 0 {
        push_repeated(out, '░', 10);
        assert(bar_of(0, 10) =~= repeated('░', 10));
    } else if budget == 0 {
        push_repeated(out, '█', 10);
        assert(bar_of(10, 10) =~= repeated('█', 10));
    } else {
        let frac = over(of_int(used as u64), of_int(budget as u64));
        out.append(bar(frac, 10).as_str());
    }
}

/// What is shown of a budget.
pub fn budget_line(period: &str, used: i64, budget: i64, dec: bool) -> (r: String)
    requires
        budget >= 0,
    ensures
        r@ == budget_line_text(period@, used as int, budget as int, dec),
{
    let mut r = String::new();
    r.append("Budget (");
    r.append(period_adverb(period));
    r.append("): ");
    r.append(fmt_bytes(used, dec).as_str());
    r.append("/");
    r.append(fmt_bytes(budget, dec).as_str());
    r.append(" ");
    push_budget_bar(&mut r, used, budget);
    r.append(" ");
    push_percent(&mut r, used, budget);
    r.append("%");
    assert(r@ =~= budget_line_text(period@, used as int, budget as int, dec));
    r
}

/// What is shown of the budget below the table: a line where a budget is set whose period
/// is the one that is shown. Nothing at all where the use does not fit.
pub fn budget_under_table(cfg: &Config, period: Period, rows: &Vec<Row>, dec: bool) -> (r: Option<
    Option<String>,
>)
    ensures
        ({
            let shown = bits_positive(cfg.budget_gb) && counted_period(cfg.budget_period@)
                == period_name(period);
            let wan_only = cfg.budget_basis@ == "wan"@;
            &&& shown == shows_budget(*cfg, period)
            &&& !shown ==> r == Some::<Option<String>>(None)
            &&& shown ==> (r is Some <==> rows_used_fit(rows@, wan_only))
            &&& shown && r is Some ==> {
                &&& r->0 is Some
                &&& r->0->0@ == budget_line_text(
                    period_name(period),
                    rows_used(rows@, wan_only),
                    budget_bytes(cfg.budget_gb),
                    dec,
                )
            }
        }),
{
    match cfg.effective_budget() {
        Some((budget_period, gb)) => {
            if !same_text(budget_period, period_word(period)) {
                return Some(None);
            }
            match used_in(rows, cfg.budget_basis.as_str()) {
                Some(used) => Some(Some(budget_line(budget_period, used, bytes_of_budget(gb), dec))),
                None => None,
            }
        },
        None => Some(None),
    }
}

// ---- rankings ----

/// A line of a ranking.
pub open spec fn ranking_columns(
    name: Seq<char>,
    down: Seq<char>,
    up: Seq<char>,
    total: Seq<char>,
) -> Seq<char> {
    flush_left(name, 12) + " "@ + flush_right(down, 10) + " "@ + flush_right(up, 10) + " "@
        + flush_right(total, 10)
}

/// A line of a ranking.
pub fn ranking_line(name: &str, down: &str, up: &str, total: &str) -> (r: String)
    ensures
        r@ == ranking_columns(name@, down@, up@, total@),
{
    let mut r = String::new();
    push_left(&mut r, name, 12);
    r.append(" ");
    push_right(&mut r, down, 10);
    r.append(" ");
    push_right(&mut r, up, 10);
    r.append(" ");
    push_right(&mut r, total, 10);
    assert(r@ =~= ranking_columns(name@, down@, up@, total@));
    r
}

/// The heading of a ranking of interfaces.
pub fn iface_heading() -> (r: String)
    ensures
        r@ == ranking_columns("IFACE"@, "DOWN"@, "UP"@, "TOTAL"@),
{
    ranking_line("IFACE", "DOWN", "UP", "TOTAL")
}

/// The line of an interface in a ranking; nothing where its sum does not fit.
pub fn iface_line(name: &str, rx: i64, tx: i64, dec: bool) -> (r: Option<String>)
    ensures
        r is Some <==> fits(rx + tx),
        r matches Some(s) ==> s@ == ranking_columns(
            name@,
            bytes_text(rx as int, dec),
            bytes_text(tx as int, dec),
            bytes_text(rx + tx, dec),
        ),
{
    match rx.checked_add(tx) {
        Some(both) => Some(
            ranking_line(
                name,
                fmt_bytes(rx, dec).as_str(),
                fmt_bytes(tx, dec).as_str(),
                fmt_bytes(both, dec).as_str(),
            ),
        ),
        None => None,
    }
}

/// The keys by which days are ranked: the busiest first.
pub open spec fn day_keys(rows: Seq<Row>) -> Seq<i128> {
    Seq::new(rows.len(), |i: int| (-(rows[i].rx + rows[i].tx)) as i128)
}

/// Whether a day can be ranked: its time lies in the range of instants and its sum fits.
pub open spec fn can_rank(row: Row) -> bool {
    in_instants(row.ts as int) && fits(row.rx + row.tx)
}

/// The line of a day in a ranking.
pub open spec fn day_line(row: Row, zone: jiff::tz::TimeZone, dec: bool) -> Seq<char> {
    ranking_columns(
        moment_text(zone, row.ts as int, false),
        bytes_text(row.rx as int, dec),
        bytes_text(row.tx as int, dec),
        bytes_text(row.rx + row.tx, dec),
    )
}

/// How many lines a ranking has.
pub open spec fn ranked_len(len: nat, limit: nat) -> nat {
    if len <= limit {
        len
    } else {
        limit
    }
}

/// Whether lines are the heading and the busiest days in an order, at most `limit`.
pub open spec fn is_ranking(
    lines: Seq<String>,
    rows: Seq<Row>,
    o: Seq<usize>,
    limit: nat,
    zone: jiff::tz::TimeZone,
    dec: bool,
) -> bool {
    &&& lines.len() == ranked_len(rows.len(), limit) + 1
    &&& lines[0]@ == ranking_columns("DATE"@, "DOWN"@, "UP"@, "TOTAL"@)
    &&& forall|i: int|
        1 <= i < lines.len() ==> (#[trigger] lines[i])@ == day_line(
            rows[o[i - 1] as int],
            zone,
            dec,
        )
}

/// The busiest days, at most `limit` of them, equally busy ones as they stood; nothing
/// where a day cannot be ranked.
pub fn top_days(rows: &Vec<Row>, limit: usize, zone: &jiff::tz::TimeZone, dec: bool) -> (r: Option<
    Vec<String>,
>)
    ensures
        r is Some <==> forall|i: int| 0 <= i < rows.len() ==> can_rank(#[trigger] rows@[i]),
        r matches Some(v) ==> exists|o: Seq<usize>| #[trigger]
            is_order(o, day_keys(rows@)) && is_ranking(
                v@,
                rows@,
                o,
                limit as nat,
                *zone,
                dec,
            ),
        r matches Some(v) ==> exists|o: Seq<usize>| #[trigger]
            busiest_first(o, rows@) && is_ranking(v@, rows@, o, limit as nat, *zone, dec),
{
    let mut keys: Vec<i128> = Vec::new();
    let mut i: usize = 0;
    while i < rows.len()
        invariant
            i <= rows.len(),
            keys@ == day_keys(rows@).take(i as int),
            forall|k: int| 0 <= k < i ==> can_rank(#[trigger] rows@[k]),
        decreases rows.len() - i,
    {
        let row = &rows[i];
        if row.ts < FIRST_INSTANT || row.ts > LAST_INSTANT || row.rx.checked_add(row.tx).is_none() {
            assert(!can_rank(rows@[i as int]));
            return None;
        }
        keys.push(-(row.rx as i128 + row.tx as i128));
        assert(day_keys(rows@).take(i + 1) =~= day_keys(rows@).take(i as int).push(
            day_keys(rows@)[i as int],
        ));
        i = i + 1;
    }
    assert(day_keys(rows@).take(i as int) =~= day_keys(rows@));
    let o = order(&keys);
    let count: usize = if rows.len() <= limit {
        rows.len()
    } else {
        limit
    };
    let mut v: Vec<String> = Vec::new();
    v.push(ranking_line("DATE", "DOWN", "UP", "TOTAL"));
    let mut j: usize = 0;
    while j < count
        invariant
            j <= count <= o.len() == rows.len(),
            is_order(o@, day_keys(rows@)),
            forall|k: int| 0 <= k < rows.len() ==> can_rank(#[trigger] rows@[k]),
            v.len() == j + 1,
            v@[0]@ == ranking_columns("DATE"@, "DOWN"@, "UP"@, "TOTAL"@),
            forall|i: int|
                1 <= i < v.len() ==> (#[trigger] v@[i])@ == day_line(
                    rows@[o@[i - 1] as int],
                    *zone,
                    dec,
                ),
        decreases count - j,
    {
        assert(0 <= o@[j as int] < rows@.len());
        let row = &rows[o[j]];
        assert(can_rank(rows@[o@[j as int] as int]));
        v.push(
            ranking_line(
                fmt_date_in(row.ts, zone, false).as_str(),
                fmt_bytes(row.rx, dec).as_str(),
                fmt_bytes(row.tx, dec).as_str(),
                fmt_bytes(row.total(), dec).as_str(),
            ),
        );
        j = j + 1;
    }
    assert(is_ranking(v@, rows@, o@, limit as nat, *zone, dec));
    proof {
        keys_put_the_busiest_first(o@, rows@);
    }
    Some(v)
}

// ---- what the lines say ----

/// A line of the table of usage holds the date, the bytes received, sent and both, and two
/// pairs of local and outside bytes, each in its column. Where no more is local than there
/// is, the outside bytes are those that make all of them with the local ones, in each
/// direction by itself; where more is, there are none.
pub proof fn lines_tell_local_and_outside_bytes(
    row: Row,
    zone: jiff::tz::TimeZone,
    with_time: bool,
    dec: bool,
    w_rx: int,
    w_tx: int,
)
    requires
        row.lan_rx <= row.rx ==> row.lan_rx + w_rx == row.rx,
        row.lan_tx <= row.tx ==> row.lan_tx + w_tx == row.tx,
        row.lan_rx > row.rx ==> w_rx == 0,
        row.lan_tx > row.tx ==> w_tx == 0,
    ensures
        ({
            let line = row_line(row, zone, with_time, dec);
            let lan = bytes_text(row.lan_rx as int, dec) + "/"@ + bytes_text(
                row.lan_tx as int,
                dec,
            );
            let wan = bytes_text(w_rx, dec) + "/"@ + bytes_text(w_tx, dec);
            &&& line == flush_left(moment_text(zone, row.ts as int, with_time), 16) + " "@
                + flush_right(bytes_text(row.rx as int, dec), 10) + " "@ + flush_right(
                bytes_text(row.tx as int, dec),
                10,
            ) + " "@ + flush_right(bytes_text(row.rx + row.tx, dec), 10) + " "@ + flush_right(
                lan,
                16,
            ) + " "@ + flush_right(wan, 16)
            &&& line.skip(line.len() - wan.len()) == wan
        }),
{
    let line = row_line(row, zone, with_time, dec);
    let wan = bytes_text(w_rx, dec) + "/"@ + bytes_text(w_tx, dec);
    columns_hold_their_text(wan, 16);
    let column = flush_right(wan, 16);
    assert(line.skip(line.len() - wan.len()) =~= column.skip(column.len() - wan.len()));
}

/// A row counts against a budget with all its bytes, or with those from outside.
pub proof fn a_row_counts_for_its_bytes(row: Row, wan_only: bool)
    requires
        0 <= row.lan_rx <= row.rx,
        0 <= row.lan_tx <= row.tx,
    ensures
        !wan_only ==> row_used(row, wan_only) == row.rx + row.tx,
        wan_only ==> row_used(row, wan_only) + row.lan_rx + row.lan_tx == row.rx + row.tx,
{
}

/// Rows and more rows count against a budget as much as all of them.
pub proof fn used_bytes_add_up(a: Seq<Row>, b: Seq<Row>, wan_only: bool)
    ensures
        rows_used(a + b, wan_only) == rows_used(a, wan_only) + rows_used(b, wan_only),
    decreases b.len(),
{
    if b.len() == 0 {
        assert(a + b =~= a);
    } else {
        used_bytes_add_up(a, b.drop_last(), wan_only);
        assert((a + b).drop_last() =~= a + b.drop_last());
        assert((a + b).last() == b.last());
    }
}

/// One row counts against a budget on its own as it does among others.
pub proof fn one_row_is_used_alone(row: Row, wan_only: bool)
    requires
        0 <= row.lan_rx <= row.rx,
        0 <= row.lan_tx <= row.tx,
    ensures
        !wan_only ==> rows_used(seq![row], wan_only) == row.rx + row.tx,
        wan_only ==> rows_used(seq![row], wan_only) == (row.rx - row.lan_rx) + (row.tx
            - row.lan_tx),
{
    assert(seq![row].drop_last() =~= Seq::empty());
    assert(rows_used(Seq::empty(), wan_only) == 0);
}

/// The bar of a budget always has ten cells, the full ones first. It is full just where the
/// budget is used up, and empty where nothing is used, below two to the 53rd.
pub proof fn bars_are_full_when_the_budget_is_used_up(used: int, budget: int)
    requires
        used < 0x20_0000_0000_0000,
        0 < budget < 0x20_0000_0000_0000,
    ensures
        budget_bar(used, budget).len() == 10,
        used >= budget ==> forall|i: int| 0 <= i < 10 ==> #[trigger] budget_bar(used, budget)[i]
            == '█',
        used <= 0 ==> forall|i: int| 0 <= i < 10 ==> #[trigger] budget_bar(used, budget)[i] == '░',
        forall|i: int, j: int|
            0 <= i < j < 10 && #[trigger] budget_bar(used, budget)[i] == '░' ==> #[trigger]
            budget_bar(used, budget)[j] == '░',
{
    if used > 0 {
        quotient_reaches_one(used as nat, budget as nat);
        if used >= budget {
            all_of_ten_is_ten();
        }
    }
}

// ---- what is shown of the clock of UTC ----

/// On the clock of UTC what is shown of days starts with the midnight 29 days before that
/// of the last day, and what is shown of weeks with the Monday 11 weeks before the last
/// one.
#[verifier::spinoff_prover]
pub proof fn thirty_days_and_twelve_weeks_are_shown(zone: jiff::tz::TimeZone, last: int)
    requires
        is_utc(zone),
        FIRST_INSTANT + 400 * 86400 <= last <= LAST_INSTANT,
    ensures
        shown_from(Period::Day, zone, last) == (last / 86400 - 29) * 86400,
        ({
            let first = shown_from(Period::Week, zone, last);
            &&& first % 86400 == 0
            &&& (first / 86400 - 4) % 7 == 0
            &&& 77 * 86400 <= last - first < 84 * 86400
        }),
{
    let day = last / 86400;
    let monday = day - (day + 3) % 7;
    lemma_fundamental_div_mod_converse((monday - 77) * 86400, 86400, monday - 77, 0);
    lemma_fundamental_div_mod_converse(monday - 81, 7, (day + 3) / 7 - 12, 0);
    assert(FIRST_DAY * 86400 < FIRST_INSTANT + 86400);
}

/// On the clock of UTC what is shown of months starts with the first of the month 11 months
/// before the last one.
#[verifier::spinoff_prover]
pub proof fn twelve_months_are_shown(zone: jiff::tz::TimeZone, last: int)
    requires
        is_utc(zone),
        FIRST_INSTANT + 400 * 86400 <= last <= LAST_INSTANT,
    ensures
        ({
            let first = shown_from(Period::Month, zone, last);
            let (from, to) = (date_of(first / 86400), date_of(last / 86400));
            &&& first % 86400 == 0
            &&& from.2 == 1
            &&& 12 * to.0 + to.1 - (12 * from.0 + from.1) == 11
        }),
{
    let day = last / 86400;
    let to = date_of(day);
    every_day_has_a_date(day);
    let months = 12 * to.0 + to.1 - 1 - 11;
    let (y, m) = (months / 12, months % 12 + 1);
    let first = day_number(y, m, 1);
    date_of_day_number(y, m, 1);
    lemma_fundamental_div_mod_converse(first * 86400, 86400, first, 0);
    earlier_spans_start_earlier(Unit::Month, day, 11);
    assert(first >= day - 397) by {
        year_before(y, m, to.0, to.1, to.2);
    }
    assert(first <= day) by {
        later_date_greater_number(y, m, 1, to.0, to.1, to.2);
    }
    assert(FIRST_DAY * 86400 < FIRST_INSTANT + 86400);
}

proof fn year_before(y: int, m: int, to_y: int, to_m: int, to_d: int)
    requires
        date_exists(to_y, to_m, to_d),
        1 <= m <= 12,
        12 * to_y + to_m - (12 * y + m) == 11,
    ensures
        day_number(to_y, to_m, to_d) - day_number(y, m, 1) <= 397,
{
    if to_m == 12 {
        assert(y == to_y && m == 1);
    } else {
        assert(y == to_y - 1 && m == to_m + 1);
        later_date_greater_number(to_y - 1, to_m, 1, to_y - 1, m, 1);
        let (a, b) = (to_y - 1, to_y - 2);
        assert(leap_years(a) - leap_years(b) <= 3) by {
            assert(a / 4 <= b / 4 + 1);
            assert(a / 100 >= b / 100);
            assert(a / 400 <= b / 400 + 1);
        }
    }
}

// ---- the busiest days ----

/// Whether places name every row once, by their bytes in both directions: no row comes
/// before a busier one, and equally busy ones stand as they did.
pub open spec fn busiest_first(places: Seq<usize>, rows: Seq<Row>) -> bool {
    &&& places.len() == rows.len()
    &&& forall|i: int| 0 <= i < places.len() ==> 0 <= #[trigger] places[i] < rows.len()
    &&& forall|i: int, j: int|
        0 <= i < j < places.len() ==> {
            let (a, b) = (rows[#[trigger] places[i] as int], rows[#[trigger] places[j] as int]);
            &&& a.rx + a.tx >= b.rx + b.tx
            &&& a.rx + a.tx == b.rx + b.tx ==> places[i] < places[j]
        }
}

/// The order by the keys of the days is that by their bytes in both directions.
pub proof fn keys_put_the_busiest_first(places: Seq<usize>, rows: Seq<Row>)
    requires
        is_order(places, day_keys(rows)),
    ensures
        busiest_first(places, rows),
{
    assert forall|i: int, j: int| 0 <= i < j < places.len() implies ({
        let (a, b) = (rows[#[trigger] places[i] as int], rows[#[trigger] places[j] as int]);
        &&& a.rx + a.tx >= b.rx + b.tx
        &&& a.rx + a.tx == b.rx + b.tx ==> places[i] < places[j]
    }) by {
        assert(comes_before(day_keys(rows), places[i] as int, places[j] as int));
    }
}

/// A ranking has a heading and as many days as there are, at most the limit. Each line
/// tells a day's date and its bytes received, sent and both. No day is listed twice, none
/// above a busier one, and no day that is left out is busier than one that is listed.
#[verifier::spinoff_prover]
pub proof fn the_busiest_days_are_listed(
    lines: Seq<String>,
    rows: Seq<Row>,
    places: Seq<usize>,
    limit: nat,
    zone: jiff::tz::TimeZone,
    dec: bool,
)
    requires
        is_order(places, day_keys(rows)),
        is_ranking(lines, rows, places, limit, zone, dec),
    ensures
        lines.len() == rows.len() + 1 || (lines.len() == limit + 1 && limit <= rows.len()),
        lines.len() <= limit + 1,
        places.no_duplicates(),
        forall|i: int|
            1 <= i < lines.len() ==> {
                let row = rows[places[i - 1] as int];
                (#[trigger] lines[i])@ == flush_left(moment_text(zone, row.ts as int, false), 12)
                    + " "@ + flush_right(bytes_text(row.rx as int, dec), 10) + " "@ + flush_right(
                    bytes_text(row.tx as int, dec),
                    10,
                ) + " "@ + flush_right(bytes_text(row.rx + row.tx, dec), 10)
            },
        forall|i: int, j: int|
            0 <= i < j < lines.len() - 1 ==> {
                let (a, b) = (rows[#[trigger] places[i] as int], rows[#[trigger] places[j] as int]);
                a.rx + a.tx >= b.rx + b.tx
            },
        forall|i: int, p: int|
            0 <= i < lines.len() - 1 && 0 <= p < rows.len() && !places.take(
                lines.len() - 1,
            ).contains(p as usize) ==> {
                let (a, b) = (rows[#[trigger] places[i] as int], #[trigger] rows[p]);
                a.rx + a.tx >= b.rx + b.tx
            },
{
    keys_put_the_busiest_first(places, rows);
    let count = lines.len() - 1;
    assert(places.no_duplicates()) by {
        assert forall|i: int, j: int| 0 <= i < j < places.len() implies places[i] != places[j] by {
            assert(comes_before(day_keys(rows), places[i] as int, places[j] as int));
        }
    }
    assert forall|i: int, p: int|
        0 <= i < count && 0 <= p < rows.len() && !places.take(count).contains(p as usize) implies ({
        let (a, b) = (rows[#[trigger] places[i] as int], #[trigger] rows[p]);
        a.rx + a.tx >= b.rx + b.tx
    }) by {
        order_names_every_place(places, day_keys(rows), p);
        let j = choose|j: int| 0 <= j < places.len() && #[trigger] places[j] == p;
        if j < count {
            assert(places.take(count)[j] == p as usize);
        }
    }
}

/// The percent of a budget that are told are those nearest to the use; a minus stands before
/// them where it is negative.
pub proof fn the_nearest_percent_are_told(used: nat, budget: nat)
    requires
        0 < used < 0x400_0000_0000,
        0 < budget < 0x20_0000_0000_0000,
    ensures
        ({
            let p = percent_of(used, budget);
            &&& 2 * (p * budget) <= 200 * used + budget
            &&& 200 * used <= 2 * (p * budget) + budget
            &&& percent_text(used as int, budget as int) == decimal(p)
            &&& percent_text(-used, budget as int) == seq!['-'] + decimal(p)
        }),
{
    nearest_parts_are_near(used, budget, 100);
    reveal_strlit("-");
    assert("-"@ =~= seq!['-']);
}

/// None of a budget is no percent, all of it a hundred, and any multiple as many hundreds.
pub proof fn hundreds_of_percent(k: nat, budget: nat)
    requires
        0 < budget,
        0 < k < 0x10_0000_0000,
        k * budget < 0x20_0000_0000_0000,
    ensures
        percent_text(0, budget as int) == decimal(0),
        percent_text((k * budget) as int, budget as int) == decimal(100 * k),
{
    assert(budget <= k * budget) by (nonlinear_arith)
        requires
            k >= 1,
            budget > 0,
    ;
    nothing_is_no_part(int_double(budget), int_double(100));
    whole_quotients_are_exact(k, budget);
    whole_products_are_exact(k, 100);
    integers_are_not_rounded(k * 100);
}

/// The bar of a budget has as many full cells as are nearest to its use in tenths.
pub proof fn bars_show_the_nearest_tenth(used: nat, budget: nat)
    requires
        0 < used < budget < 0x1000_0000_0000,
    ensures
        exists|n: nat|
            {
                &&& n <= 10
                &&& budget_bar(used as int, budget as int) == #[trigger] bar_of(n, 10)
                &&& 2 * (n * budget) <= 20 * used + budget
                &&& 20 * used <= 2 * (n * budget) + budget
            },
{
    parts_fill_the_nearest_cells(used, budget, 10);
    let n = filled(quotient(int_double(used), int_double(budget)), 10);
    assert(budget_bar(used as int, budget as int) == bar_of(n, 10));
}

/// Where the bytes are looked for: hours in the hourly rollup, months in the monthly one,
/// days, and the weeks that are made of them, in the daily one.
pub proof fn each_period_has_its_table(period: Period)
    ensures
        period == Period::Hour <==> shown_table(period) == "hourly"@,
        period == Period::Month <==> shown_table(period) == "monthly"@,
        shown_table(Period::Week) == shown_table(Period::Day),
{
    reveal_strlit("hourly");
    reveal_strlit("daily");
    reveal_strlit("monthly");
    assert("hourly"@.len() == 6 && "daily"@.len() == 5 && "monthly"@.len() == 7);
}

/// Every row of the range of instants with counts that are not negative, and no more local
/// bytes than there are, is shown, ranked and counted.
pub proof fn ordinary_rows_are_shown(row: Row)
    requires
        FIRST_INSTANT <= row.ts <= LAST_INSTANT,
        0 <= row.lan_rx <= row.rx,
        0 <= row.lan_tx <= row.tx,
        row.rx + row.tx <= i64::MAX,
    ensures
        can_show(row),
        can_rank(row),
        row_used_fits(row, true),
        row_used_fits(row, false),
        row.small(),
{
}

/// Whether every row can be counted against a budget.
pub open spec fn all_ordinary(rows: Seq<Row>) -> bool {
    forall|i: int|
        0 <= i < rows.len() ==> 0 <= (#[trigger] rows[i]).lan_rx <= rows[i].rx && 0
            <= rows[i].lan_tx <= rows[i].tx && rows[i].rx + rows[i].tx <= i64::MAX
}

proof fn fewer_rows_use_less(rows: Seq<Row>, n: int, wan_only: bool)
    requires
        all_ordinary(rows),
        0 <= n <= rows.len(),
    ensures
        0 <= rows_used(rows.take(n), wan_only) <= rows_used(rows, wan_only),
    decreases rows.len(),
{
    if rows.len() > 0 {
        let fewer = rows.drop_last();
        assert(all_ordinary(fewer)) by {
            assert forall|i: int| 0 <= i < fewer.len() implies 0 <= (#[trigger] fewer[i]).lan_rx
                <= fewer[i].rx && 0 <= fewer[i].lan_tx <= fewer[i].tx && fewer[i].rx + fewer[i].tx
                <= i64::MAX by {
                assert(fewer[i] == rows[i]);
            }
        }
        assert(rows[rows.len() - 1] == rows.last());
        if n < rows.len() {
            fewer_rows_use_less(fewer, n, wan_only);
            assert(fewer.take(n) =~= rows.take(n));
        } else {
            fewer_rows_use_less(fewer, n - 1, wan_only);
            assert(fewer.take(n - 1) =~= fewer);
            assert(rows.take(n) =~= rows);
        }
    }
}

/// The use of ordinary rows can be worked out wherever it is a count of 64 bits.
pub proof fn ordinary_use_is_worked_out(rows: Seq<Row>, wan_only: bool)
    requires
        all_ordinary(rows),
        rows_used(rows, wan_only) <= i64::MAX,
    ensures
        rows_used_fit(rows, wan_only),
{
    assert forall|i: int| 0 <= i < rows.len() implies row_used_fits(
        #[trigger] rows[i],
        wan_only,
    ) by {
        assert(0 <= rows[i].lan_rx);
    }
    assert forall|n: int| 0 <= n <= rows.len() implies fits(
        rows_used(#[trigger] rows.take(n), wan_only),
    ) by {
        fewer_rows_use_less(rows, n, wan_only);
    }
}

/// Whether rows are looked for where a plan says.
pub open spec fn is_plan(
    p: Plan,
    period: Period,
    end: int,
    asked: bool,
    zone: jiff::tz::TimeZone,
) -> bool {
    &&& p.table@ == shown_table(period)
    &&& p.from == shown_from(period, zone, last_shown(end, asked))
    &&& p.to == last_shown(end, asked) + 1
}

/// What is shown ends with now, which is counted in, or right before the end of the date
/// that was asked for; no earlier or later. On the clock of UTC it starts with a midnight,
/// that of days 29 days before the last.
pub proof fn plans_end_with_what_was_asked_for(
    p: Plan,
    period: Period,
    end: int,
    zone: jiff::tz::TimeZone,
    ts: int,
)
    requires
        is_utc(zone),
        FIRST_INSTANT + 401 * 86400 <= end <= LAST_INSTANT,
    ensures
        is_plan(p, period, end, false, zone) ==> (ts < p.to <==> ts <= end),
        is_plan(p, period, end, true, zone) ==> (ts < p.to <==> ts < end),
        is_plan(p, Period::Day, end, false, zone) ==> p.from == (end / 86400 - 29) * 86400,
        is_plan(p, Period::Day, end, true, zone) ==> p.from == ((end - 1) / 86400 - 29) * 86400,
{
    thirty_days_and_twelve_weeks_are_shown(zone, end);
    thirty_days_and_twelve_weeks_are_shown(zone, end - 1);
}

/// Whether the line of the budget stands below the table of a period.
pub open spec fn shows_budget(cfg: Config, period: Period) -> bool {
    bits_positive(cfg.budget_gb) && counted_period(cfg.budget_period@) == period_name(period)
}

/// A budget that is set stands below the table of just one period, never that of hours; one
/// that is not set stands nowhere.
pub proof fn a_budget_has_one_table(cfg: Config, a: Period, b: Period)
    ensures
        shows_budget(cfg, a) && shows_budget(cfg, b) ==> a == b,
        !shows_budget(cfg, Period::Hour),
        0 < cfg.budget_gb <= INFINITY_BITS ==> shows_budget(cfg, Period::Day) || shows_budget(
            cfg,
            Period::Week,
        ) || shows_budget(cfg, Period::Month),
        cfg.budget_gb == 0 || cfg.budget_gb > INFINITY_BITS ==> !shows_budget(cfg, a),
{
    reveal_strlit("hour");
    reveal_strlit("day");
    reveal_strlit("week");
    reveal_strlit("month");
    assert("hour"@[0] == 'h' && "day"@[0] == 'd' && "week"@[0] == 'w' && "month"@[0] == 'm');
}

/// What is shown of a budget tells the use before the stroke and the budget behind it, and
/// ends with the percent.
pub proof fn budget_lines_tell_use_and_budget(
    period: Seq<char>,
    used: int,
    budget: int,
    dec: bool,
)
    ensures
        ({
            let s = budget_line_text(period, used, budget, dec);
            let (u, b) = (bytes_text(used, dec), bytes_text(budget, dec));
            let at = adverb(period).len() as int + 11;
            &&& s.subrange(8, 8 + adverb(period).len() as int) == adverb(period)
            &&& s.subrange(at, at + u.len()) == u
            &&& s[at + u.len()] == '/'
            &&& s.subrange(at + u.len() + 1, at + u.len() + 1 + b.len()) == b
            &&& ends_with(s, percent_text(used, budget) + seq!['%'])
        }),
{
    reveal_strlit("Budget (");
    reveal_strlit("): ");
    reveal_strlit("/");
    reveal_strlit(" ");
    reveal_strlit("%");
    let s = budget_line_text(period, used, budget, dec);
    let (u, b, w) = (bytes_text(used, dec), bytes_text(budget, dec), adverb(period));
    let at = w.len() as int + 11;
    let tail = percent_text(used, budget) + seq!['%'];
    assert(s.subrange(8, 8 + w.len() as int) =~= w);
    assert(s.subrange(at, at + u.len()) =~= u);
    assert(s.subrange(at + u.len() + 1, at + u.len() + 1 + b.len()) =~= b);
    assert(s.skip(s.len() - tail.len()) =~= tail);
}

/// What is shown holds the bytes of all samples, no more and no less, and each of its rows
/// starts where the hour, day or month of some sample starts.
pub proof fn nothing_is_lost_in_what_is_shown(
    out: Seq<Row>,
    samples: Seq<Row>,
    period: Period,
    zone: jiff::tz::TimeZone,
    i: int,
)
    requires
        is_shown(out, samples, period, zone),
        0 <= i < out.len(),
    ensures
        sum_all(out) == sum_all(samples),
        period == Period::Hour ==> has_origin(samples, zone, Unit::Hour, out[i].ts as int),
        period == Period::Day ==> has_origin(samples, zone, Unit::Day, out[i].ts as int),
        period == Period::Month ==> has_origin(samples, zone, Unit::Month, out[i].ts as int),
{
    if period == Period::Week {
        let days = choose|days: Seq<Row>| #[trigger]
            is_bucketed(days, samples, zone, Unit::Day) && is_bucketed(out, days, zone, Unit::Week);
        buckets_keep_the_bytes(days, samples, zone, Unit::Day);
        buckets_keep_the_bytes(out, days, zone, Unit::Week);
    } else {
        buckets_keep_the_bytes(out, samples, zone, first_unit(period));
    }
}

/// A text that starts a day ends one too, and one that does not fails in the same way.
pub proof fn dates_start_and_end_days(text: Seq<char>, zone: jiff::tz::TimeZone)
    ensures
        start_of_text(text, zone) is Ok <==> end_of_text(text, zone) is Ok,
        start_of_text(text, zone) matches Err(e) ==> end_of_text(text, zone)
            == Err::<int, DateError>(e),
        date_in(text) is None ==> start_of_text(text, zone) == Err::<int, DateError>(
            DateError::NotADate,
        ),
        date_in(text) matches Some((y, m, d)) ==> {
            let t = midnight(zone, day_number(y, m, d));
            &&& in_instants(t) ==> start_of_text(text, zone) == Ok::<int, DateError>(t)
                && end_of_text(text, zone) == Ok::<int, DateError>(
                end_of_day(zone, day_number(y, m, d)),
            )
            &&& !in_instants(t) ==> start_of_text(text, zone) == Err::<int, DateError>(
                DateError::OutOfRange,
            )
        },
{
}

} // verus!
