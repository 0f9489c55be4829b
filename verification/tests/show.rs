use netmeter::config::Config;
use netmeter::db::Row;
use netmeter::fmtx::fmt_date_in;
use netmeter::show::{
    bucket_samples, budget_line, budget_under_table, date_midnight, date_range, iface_heading,
    iface_line, parse_date, period_word, plan, rebucket_week, rolled_rows, top_days, usage_table,
    used_in, DateError, Period,
};

fn utc() -> jiff::tz::TimeZone {
    jiff::tz::TimeZone::UTC
}

fn row(ts: i64, rx: i64, tx: i64, lan_rx: i64, lan_tx: i64) -> Row {
    Row { ts, iface: "_all".into(), rx, tx, lan_rx, lan_tx }
}

const DAY: i64 = 1_788_652_800; // Sunday 2026-09-06

#[test]
fn plans() {
    let now = DAY + 3 * 86400 + 43_200; // Wednesday 2026-09-09 12:00
    let p = plan(Period::Hour, now + 59, false, &utc()).unwrap();
    assert_eq!((p.table, p.from, p.to), ("hourly", now - 23 * 3600, now + 60));
    let p = plan(Period::Day, now, false, &utc()).unwrap();
    assert_eq!((p.table, p.from, p.to), ("daily", DAY + 3 * 86400 - 29 * 86400, now + 1));
    let p = plan(Period::Week, now, false, &utc()).unwrap();
    assert_eq!((p.table, p.from), ("daily", DAY + 86400 - 77 * 86400)); // Monday 2026-06-22
    assert_eq!(fmt_date_in(p.from, &utc(), true), "2026-06-22 00:00");
    let p = plan(Period::Month, now, false, &utc()).unwrap();
    assert_eq!(p.table, "monthly");
    assert_eq!(fmt_date_in(p.from, &utc(), true), "2025-10-01 00:00");
    assert!(plan(Period::Hour, i64::MAX, false, &utc()).is_none());
    assert!(plan(Period::Hour, i64::MIN, true, &utc()).is_none());
    let p = plan(Period::Day, DAY, true, &utc()).unwrap();
    assert_eq!((p.from, p.to), (DAY - 30 * 86400, DAY));
    assert_eq!(period_word(Period::Week), "week");
}

#[test]
fn twelve_months_whatever_their_length() {
    let first = |end: i64| {
        let p = plan(Period::Month, end, false, &utc()).unwrap();
        fmt_date_in(p.from, &utc(), true)
    };
    let leap = date_midnight("2029-01-01", &utc()).unwrap();
    assert_eq!(first(leap - 1), "2028-01-01 00:00");
    assert_eq!(first(leap), "2028-02-01 00:00");
    assert_eq!(first(date_midnight("2028-11-30", &utc()).unwrap()), "2027-12-01 00:00");
    let p = plan(Period::Month, -377_705_023_201, false, &utc()).unwrap();
    assert_eq!(p.from, -377_705_023_201);
}

#[test]
fn bins_start_on_the_clocks_of_the_zone() {
    let zone = jiff::tz::TimeZone::posix("EST5EDT,M3.2.0,M11.1.0").unwrap();
    let now = date_midnight("2026-11-04", &zone).unwrap() + 3600; // EST
    let p = plan(Period::Week, now, false, &zone).unwrap();
    assert_eq!(p.from, date_midnight("2026-08-17", &zone).unwrap()); // Monday, EDT
    let p = plan(Period::Day, now, false, &zone).unwrap();
    assert_eq!(p.from, date_midnight("2026-10-06", &zone).unwrap());
    let p = plan(Period::Month, now, false, &zone).unwrap();
    assert_eq!(p.from, date_midnight("2025-12-01", &zone).unwrap());
}

#[test]
fn only_whole_bins_come_out() {
    let now = DAY + 3 * 86400 + 43_200;
    let samples: Vec<Row> = (0..400).map(|d| row(now - d * 86400, 1, 0, 0, 0)).collect();
    for (period, bins) in [(Period::Day, 30), (Period::Week, 12), (Period::Month, 12)] {
        let p = plan(period, now, false, &utc()).unwrap();
        let mut kept = vec![];
        for s in &samples {
            if p.from <= s.ts && s.ts < p.to {
                kept.push(row(s.ts, 1, 0, 0, 0));
            }
        }
        let out = bucket_samples(&kept, period, &utc()).unwrap();
        assert_eq!(out.len(), bins);
        assert_eq!(out[0].ts, p.from);
        if period == Period::Week {
            assert!(out[..11].iter().all(|r| r.rx == 7));
        }
    }
}

#[test]
fn weeks_by_way_of_days() {
    let samples: Vec<Row> =
        (0..60).map(|i| row(DAY - i * 31_000, i + 1, 2 * i, i, 1)).collect();
    let weeks = bucket_samples(&samples, Period::Week, &utc()).unwrap();
    let direct = rebucket_week(&samples, &utc()).unwrap();
    let again = rebucket_week(&weeks, &utc()).unwrap();
    let plain = |v: &Vec<Row>| {
        v.iter().map(|r| (r.ts, r.rx, r.tx, r.lan_rx, r.lan_tx)).collect::<Vec<_>>()
    };
    assert_eq!(plain(&weeks), plain(&direct));
    assert_eq!(plain(&weeks), plain(&again));
}

#[test]
fn dates_that_are_asked_for() {
    assert_eq!(date_midnight("2026-09-06", &utc()), Ok(DAY));
    assert_eq!(parse_date("2026-09-06", &utc()), Ok(DAY + 86400));
    assert_eq!(parse_date("tomorrow", &utc()), Err(DateError::NotADate));
    assert_eq!(parse_date("2026-02-30", &utc()), Err(DateError::NotADate));
    assert_eq!(parse_date("9999-12-31", &utc()), Err(DateError::OutOfRange));
    let zone = jiff::tz::TimeZone::posix("<+03>-3").unwrap();
    assert_eq!(date_midnight("2026-09-06", &zone), Ok(DAY - 3 * 3600));
}

#[test]
fn dates_are_read_as_they_are_shown() {
    for day in [-719_528i64, -719_163, -25_509, 0, 20_702, 2_932_895] {
        let text = fmt_date_in(day * 86400, &utc(), false);
        assert_eq!(date_midnight(&text, &utc()), Ok(day * 86400), "{text}");
    }
    assert_eq!(fmt_date_in(-719_528 * 86400, &utc(), false), "0000-01-01");
}

#[test]
fn the_day_that_is_asked_for_is_shown() {
    let end = parse_date("2026-09-06", &utc()).unwrap();
    for period in [Period::Hour, Period::Day, Period::Week, Period::Month] {
        let p = plan(period, end, true, &utc()).unwrap();
        assert!(p.from <= DAY && DAY + 86399 < p.to);
        assert_eq!(p.to, DAY + 86400);
    }
}

#[test]
fn days_end_at_the_next_midnight() {
    let zone = jiff::tz::TimeZone::posix("EST5EDT,M3.2.0,M11.1.0").unwrap();
    let short = date_midnight("2026-03-08", &zone).unwrap();
    assert_eq!(short, 1_772_946_000);
    assert_eq!(parse_date("2026-03-08", &zone), Ok(short + 23 * 3600));
    assert_eq!(parse_date("2026-03-08", &zone), date_midnight("2026-03-09", &zone));
    let long = date_midnight("2026-11-01", &zone).unwrap();
    assert_eq!(long, 1_793_505_600);
    assert_eq!(parse_date("2026-11-01", &zone), Ok(long + 25 * 3600));
    assert_eq!(date_range("2026-11-01", "2026-11-01", &zone), Ok((long, long + 25 * 3600)));
    assert_eq!(
        date_range("2026-03-08", "2026-11-01", &zone),
        Ok((short, date_midnight("2026-11-02", &zone).unwrap()))
    );
    assert_eq!(plan(Period::Day, short + 23 * 3600, true, &zone).unwrap().to, short + 23 * 3600);
}

#[test]
fn ends_of_months_and_years() {
    for (date, next) in [
        ("2026-02-28", "2026-03-01"),
        ("2028-02-28", "2028-02-29"),
        ("2028-02-29", "2028-03-01"),
        ("2026-04-30", "2026-05-01"),
        ("2026-12-31", "2027-01-01"),
    ] {
        assert_eq!(parse_date(date, &utc()), date_midnight(next, &utc()), "{date}");
    }
    // the last midnights of the range
    assert_eq!(parse_date("9999-12-29", &utc()), Ok(2_932_895 * 86400));
    assert_eq!(parse_date("9999-12-30", &utc()), Ok(253_402_207_201));
}

#[test]
fn ranges_hold_both_dates() {
    assert_eq!(date_range("2026-09-06", "2026-09-06", &utc()), Ok((DAY, DAY + 86400)));
    assert_eq!(date_range("2026-09-01", "2026-09-06", &utc()), Ok((DAY - 5 * 86400, DAY + 86400)));
    assert_eq!(date_range("x", "2026-09-06", &utc()), Err(DateError::NotADate));
    assert_eq!(date_range("2026-09-06", "9999-12-31", &utc()), Err(DateError::OutOfRange));
}

#[test]
fn samples_by_period() {
    let samples = vec![row(DAY + 10, 1, 2, 0, 0), row(DAY + 4000, 3, 4, 1, 1), row(DAY - 86400, 10, 20, 5, 6)];
    let hours = bucket_samples(&samples, Period::Hour, &utc()).unwrap();
    assert_eq!(hours.iter().map(|r| r.ts).collect::<Vec<_>>(), [DAY - 86400, DAY, DAY + 3600]);
    let days = bucket_samples(&samples, Period::Day, &utc()).unwrap();
    assert_eq!(days.iter().map(|r| (r.ts, r.rx)).collect::<Vec<_>>(), [(DAY - 86400, 10), (DAY, 4)]);
    let weeks = bucket_samples(&samples, Period::Week, &utc()).unwrap();
    assert_eq!(weeks.iter().map(|r| (r.ts, r.rx, r.lan_tx)).collect::<Vec<_>>(), [(DAY - 6 * 86400, 14, 7)]);
    let months = bucket_samples(&samples, Period::Month, &utc()).unwrap();
    assert_eq!(months[0].ts, 1_788_220_800);
    let same = rolled_rows(vec![row(5, 1, 1, 0, 0)], Period::Day, &utc()).unwrap();
    assert_eq!(same[0].ts, 5);
    let week = rolled_rows(vec![row(DAY, 1, 1, 0, 0)], Period::Week, &utc()).unwrap();
    assert_eq!(week[0].ts, DAY - 6 * 86400);
    assert_eq!(rebucket_week(&vec![row(DAY, 1, 1, 0, 0), row(DAY + 86400, 2, 2, 0, 0)], &utc()).unwrap().len(), 2);
    assert!(bucket_samples(&vec![row(i64::MIN, 1, 1, 0, 0)], Period::Week, &utc()).is_none());
}

#[test]
fn usage_lines() {
    let v = usage_table(&vec![row(DAY, 11_981, 15_155, 0, 0)], &utc(), false, false).unwrap();
    assert_eq!(
        v[0],
        "DATE                   DOWN         UP      TOTAL          LAN ↓/↑          WAN ↓/↑"
    );
    assert_eq!(
        v[1],
        "2026-09-06         11.7 KiB   14.8 KiB   26.5 KiB          0 B/0 B 11.7 KiB/14.8 KiB"
    );
    let want = format!(
        "{:<16} {:>10} {:>10} {:>10} {:>16} {:>16}",
        "2026-09-06 00:00", "10 B", "20 B", "30 B", "3 B/40 B", "7 B/0 B"
    );
    let v = usage_table(&vec![row(DAY, 10, 20, 3, 40)], &utc(), true, true).unwrap();
    assert_eq!(v[1], want);
    assert!(usage_table(&vec![row(DAY, i64::MAX, 1, 0, 0)], &utc(), true, true).is_none());
    assert!(usage_table(&vec![row(i64::MAX, 1, 1, 0, 0)], &utc(), true, true).is_none());
}

#[test]
fn budget_lines() {
    let gib = 1_073_741_824i64;
    assert_eq!(
        budget_line("month", 3 * gib, 50 * gib, false),
        "Budget (monthly): 3.0 GiB/50.0 GiB █░░░░░░░░░ 6%"
    );
    assert_eq!(budget_line("day", 0, 0, false), "Budget (daily): 0 B/0 B ░░░░░░░░░░ NaN%");
    assert_eq!(budget_line("day", 5, 0, false), "Budget (daily): 5 B/0 B ██████████ inf%");
    assert_eq!(budget_line("week", -5, 0, false), "Budget (weekly): 0 B/0 B ░░░░░░░░░░ -inf%");
    assert_eq!(budget_line("week", -1, 1000, false), "Budget (weekly): 0 B/1000 B ░░░░░░░░░░ -0%");
}

#[test]
fn budget_lines_match_double_precision() {
    for budget in [1i64, 3, 1000, 1_073_741_824, i64::MAX] {
        for used in [-1_000_000i64, -7, 0, 1, 2, 5, 999, 123_456_789_012, i64::MAX] {
            let frac = used as f64 / budget as f64;
            let f = frac.clamp(0.0, 1.0);
            let fill = (f * 10.0).round() as usize;
            let bar = "█".repeat(fill) + &"░".repeat(10 - fill);
            let line = budget_line("month", used, budget, true);
            assert!(line.ends_with(&format!(" {} {:.0}%", bar, frac * 100.0)), "{used} {budget} {line}");
        }
    }
}

#[test]
fn budget_below_the_table() {
    let mut cfg = Config::default();
    let rows = vec![row(DAY, 100, 50, 30, 60), row(DAY, 1, 1, 1, 0)];
    assert_eq!(budget_under_table(&cfg, Period::Month, &rows, false), Some(None));
    cfg.budget_gb = 1.0f64.to_bits();
    assert_eq!(budget_under_table(&cfg, Period::Day, &rows, false), Some(None));
    assert_eq!(
        budget_under_table(&cfg, Period::Month, &rows, false).unwrap().unwrap(),
        "Budget (monthly): 152 B/1.0 GiB ░░░░░░░░░░ 0%"
    );
    cfg.budget_basis = "wan".into();
    assert_eq!(used_in(&rows, "wan"), Some(71));
    assert!(budget_under_table(&cfg, Period::Month, &rows, false).unwrap().unwrap().contains("71 B/"));
    let big = vec![row(DAY, i64::MAX, 1, 0, 0)];
    assert_eq!(budget_under_table(&cfg, Period::Month, &big, false), None);
}

#[test]
fn rankings() {
    assert_eq!(iface_heading(), "IFACE              DOWN         UP      TOTAL");
    assert_eq!(iface_line("eth0", 1000, 24, true).unwrap(), "eth0             1.0 KB       24 B     1.0 KB");
    assert!(iface_line("eth0", i64::MAX, 1, true).is_none());
    let rows = vec![row(DAY, 1, 1, 0, 0), row(DAY + 86400, 5, 5, 0, 0), row(DAY - 86400, 2, 0, 0, 0)];
    let v = top_days(&rows, 2, &utc(), false).unwrap();
    assert_eq!(v.len(), 3);
    assert_eq!(v[0], "DATE               DOWN         UP      TOTAL");
    assert!(v[1].starts_with("2026-09-07 "));
    assert!(v[2].starts_with("2026-09-06 "));
    assert_eq!(top_days(&rows, 9, &utc(), false).unwrap().len(), 4);
    assert_eq!(top_days(&rows, 0, &utc(), false).unwrap().len(), 1);
    assert!(top_days(&vec![row(DAY, i64::MAX, 1, 0, 0)], 1, &utc(), false).is_none());
}
