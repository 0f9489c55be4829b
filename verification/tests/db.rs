use netmeter::calendar::{start_of, Unit};
use netmeter::db::{
    bucket, budget_key, budget_key_in, budget_window_start, floor_day, floor_hour, floor_month,
    floor_week, month_key, month_key_in, period_adverb, query_range, roll, rollup, rollup_in,
    window_floor, Row, Window, API_VERSION, SCHEMA_VERSION,
};

const T: i64 = 1_788_696_245; // Sunday 2026-09-06 12:04:05 UTC

fn row(ts: i64, iface: &str, n: i64) -> Row {
    Row { ts, iface: iface.to_string(), rx: n, tx: 2 * n, lan_rx: n / 2, lan_tx: n / 3 }
}

#[test]
fn row_sums() {
    let r = Row { ts: 0, iface: "e".into(), rx: 100, tx: 50, lan_rx: 30, lan_tx: 60 };
    assert_eq!(r.total(), 150);
    assert_eq!(r.wan_rx(), 70);
    assert_eq!(r.wan_tx(), 0);
    let d = Row::default();
    assert_eq!((d.ts, d.rx, d.tx, d.lan_rx, d.lan_tx, d.iface.as_str()), (0, 0, 0, 0, 0, ""));
    assert_eq!((SCHEMA_VERSION, API_VERSION), (1, 1));
}

#[test]
fn local_and_outside_make_the_total() {
    let r = Row { ts: 0, iface: "e".into(), rx: 100, tx: 50, lan_rx: 30, lan_tx: 20 };
    assert_eq!(r.lan_rx + r.lan_tx + r.wan_rx() + r.wan_tx(), r.total());
}

#[test]
fn floors_of_utc() {
    assert_eq!(floor_hour(T, false), T - 245);
    assert_eq!(floor_day(T, false), 1_788_652_800);
    assert_eq!(floor_week(T, false), 1_788_652_800 - 6 * 86400); // Monday 2026-08-31
    assert_eq!(floor_month(T, false), 1_788_220_800); // 2026-09-01
    assert_eq!(floor_day(-1, false), -86400);
    assert_eq!(floor_month(-1, false), -31 * 86400);
    assert_eq!(floor_week(0, false), -3 * 86400); // Monday 1969-12-29
    assert_eq!(window_floor(Window::Week, T, false), floor_week(T, false));
}

#[test]
fn floors_are_their_own_floors_and_keep_order() {
    let mut last = [i64::MIN; 4];
    let mut t = -400_000_000i64;
    while t < 400_000_000 {
        let f = [
            floor_hour(t, false),
            floor_day(t, false),
            floor_week(t, false),
            floor_month(t, false),
        ];
        assert_eq!(floor_hour(f[0], false), f[0]);
        assert_eq!(floor_day(f[1], false), f[1]);
        assert_eq!(floor_week(f[2], false), f[2]);
        assert_eq!(floor_month(f[3], false), f[3]);
        assert_eq!(floor_day(f[0], false), f[1]);
        assert_eq!(floor_week(f[1], false), f[2]);
        assert_eq!(floor_month(f[1], false), f[3]);
        assert!(f[0] <= t && t < f[0] + 3600);
        assert!(f[1] <= t && t < f[1] + 86400);
        assert!(f[2] <= t && t < f[2] + 7 * 86400);
        assert!(f[3] <= t && t < f[3] + 31 * 86400);
        assert_eq!((f[2] / 86400 - 4).rem_euclid(7), 0);
        for k in 0..4 {
            assert!(last[k] <= f[k]);
        }
        last = f;
        t += 1_234_567;
    }
}

#[test]
fn local_floors_are_near() {
    for f in [floor_hour(T, true), floor_day(T, true), floor_week(T, true), floor_month(T, true)] {
        assert!(f <= T && f > T - 33 * 86400);
    }
    assert!(budget_key(T, true, "month").starts_with("month:2026-09-"));
    assert_eq!(month_key(T, true), "2026-09");
}

#[test]
fn floors_in_a_zone_with_clock_changes() {
    let zone = jiff::tz::TimeZone::posix("EST5EDT,M3.2.0,M11.1.0").unwrap();
    // 2026-03-08 has 23 hours, 2026-11-01 has 25
    let noon = 1_772_989_200; // 2026-03-08 13:00 EDT
    let midnight = start_of(Unit::Day, noon, &zone).unwrap();
    assert_eq!(midnight, 1_772_946_000); // 2026-03-08 00:00 EST
    assert_eq!(noon - midnight, 12 * 3600);
    let late = 1_793_588_400; // 2026-11-01 22:00 EST
    assert_eq!(late - start_of(Unit::Day, late, &zone).unwrap(), 23 * 3600);
    assert_eq!(start_of(Unit::Month, late, &zone), Some(1_793_505_600));
    assert_eq!(start_of(Unit::Week, noon, &zone), Some(1_772_427_600)); // Monday 2026-03-02
}

#[test]
fn starts_outside_the_range() {
    let utc = jiff::tz::TimeZone::UTC;
    assert_eq!(start_of(Unit::Hour, i64::MAX, &utc), None);
    assert_eq!(start_of(Unit::Hour, i64::MIN, &utc), None);
    assert_eq!(start_of(Unit::Month, -377_705_023_201, &utc), None);
    assert_eq!(start_of(Unit::Week, -377_705_023_201, &utc), None);
    assert!(start_of(Unit::Hour, 253_402_207_200, &utc).is_some());
}

#[test]
fn windows_of_budgets() {
    assert_eq!(budget_window_start(T, false, "day"), floor_day(T, false));
    assert_eq!(budget_window_start(T, false, "week"), floor_week(T, false));
    assert_eq!(budget_window_start(T, false, "month"), floor_month(T, false));
    assert_eq!(budget_window_start(T, false, "year"), floor_month(T, false));
    assert_eq!(budget_key(T, false, "day"), "day:2026-09-06");
    assert_eq!(budget_key(T, false, "week"), "week:2026-08-31");
    assert_eq!(budget_key(T, false, "month"), "month:2026-09-01");
    assert_eq!(month_key(T, false), "2026-09");
    assert_eq!(period_adverb("day"), "daily");
    assert_eq!(period_adverb("week"), "weekly");
    assert_eq!(period_adverb("month"), "monthly");
    assert_eq!(period_adverb("else"), "monthly");
    let utc = jiff::tz::TimeZone::UTC;
    assert_eq!(budget_key_in(T, &utc, "day").unwrap(), "day:2026-09-06");
    assert_eq!(budget_key_in(i64::MAX, &utc, "day"), None);
    assert_eq!(month_key_in(-62_135_596_801, &utc), "0000-12");
}

#[test]
fn keys_tell_windows_apart() {
    let a = budget_key(T, false, "week");
    assert_eq!(a, budget_key(T - 6 * 86400, false, "week"));
    assert_ne!(a, budget_key(T - 7 * 86400, false, "week"));
    assert_ne!(a, budget_key(T + 86400, false, "week"));
    let zone = jiff::tz::TimeZone::posix("EST5EDT,M3.2.0,M11.1.0").unwrap();
    let key = |ts: i64| budget_key_in(ts, &zone, "day").unwrap();
    let long = 1_793_505_600; // 2026-11-01 00:00 EDT, a day of 25 hours
    assert_eq!(key(long), "day:2026-11-01");
    assert_eq!(key(long + 25 * 3600 - 1), key(long));
    assert_ne!(key(long + 25 * 3600), key(long));
    assert_ne!(key(long - 1), key(long));
}

#[test]
fn keys_tell_periods_apart() {
    let first = 1_788_220_800 - 86400; // Monday 2026-08-31
    assert_eq!(budget_key(first, false, "day"), "day:2026-08-31");
    assert_eq!(budget_key(first, false, "week"), "week:2026-08-31");
}

#[test]
fn floors_reach_close_to_the_ends() {
    let first = -377_705_023_201 + 31 * 86400 + 2 * 93_599;
    let last = 253_402_207_200 - 2 * 93_599;
    assert!(floor_month(first, false) <= first && floor_week(first, false) <= first);
    assert!(floor_hour(last, false) <= last && floor_month(last, false) <= last);
}

fn sums(rows: &[Row]) -> (i64, i64, i64, i64) {
    rows.iter().fold((0, 0, 0, 0), |s, r| (s.0 + r.rx, s.1 + r.tx, s.2 + r.lan_rx, s.3 + r.lan_tx))
}

#[test]
fn buckets_add_up() {
    let utc = jiff::tz::TimeZone::UTC;
    let rows = vec![
        row(T, "a", 10),
        row(T - 90_000, "b", 7),
        row(T + 60, "b", 5),
        row(T - 90_001, "a", 1),
        row(T + 3600, "a", 100),
    ];
    let days = bucket(&rows, Unit::Day, &utc).unwrap();
    assert_eq!(days.len(), 2);
    assert_eq!(days[0].ts, 1_788_652_800 - 86400);
    assert_eq!(days[0].rx, 8);
    assert_eq!(days[1].ts, 1_788_652_800);
    assert_eq!(days[1].rx, 115);
    assert!(days.iter().all(|r| r.iface == "_all"));
    assert_eq!(sums(&days), sums(&rows));
    let hours = bucket(&rows, Unit::Hour, &utc).unwrap();
    assert_eq!(hours.len(), 3);
    assert_eq!(sums(&hours), sums(&rows));
    let weeks = bucket(&days, Unit::Week, &utc).unwrap();
    assert_eq!(weeks.len(), 1);
    assert_eq!(sums(&weeks), sums(&rows));
    assert!(bucket(&Vec::new(), Unit::Day, &utc).unwrap().is_empty());
}

#[test]
fn buckets_that_do_not_fit() {
    let utc = jiff::tz::TimeZone::UTC;
    let big = |ts| Row { ts, iface: "a".into(), rx: i64::MAX, tx: 0, lan_rx: 0, lan_tx: 0 };
    assert!(bucket(&vec![big(T), big(T + 1)], Unit::Day, &utc).is_none());
    assert!(bucket(&vec![big(T), big(T + 86400)], Unit::Day, &utc).is_some());
    assert!(bucket(&vec![big(i64::MAX)], Unit::Day, &utc).is_none());
    assert!(roll(&vec![big(T), big(T + 1)], Unit::Day, &utc).is_none());
}

#[test]
fn rollups_keep_interfaces_apart() {
    let rows =
        vec![row(T, "a", 10), row(T + 1, "b", 20), row(T + 2, "a", 30), row(T + 3600, "a", 1)];
    let r = rollup(&rows, false).unwrap();
    assert_eq!(r.hourly.len(), 3);
    assert_eq!(r.daily.len(), 2);
    assert_eq!(r.monthly.len(), 2);
    for part in [&r.hourly, &r.daily, &r.monthly] {
        assert_eq!(sums(part), sums(&rows));
    }
    let a = r.daily.iter().find(|x| x.iface == "a").unwrap();
    assert_eq!((a.ts, a.rx, a.tx), (1_788_652_800, 41, 82));
    let zone = jiff::tz::TimeZone::posix("<+03>-3").unwrap();
    let z = rollup_in(&rows, &zone).unwrap();
    assert_eq!(z.daily[0].ts, 1_788_652_800 - 3 * 3600);
    assert!(rollup(&vec![row(i64::MAX, "a", 1)], false).is_none());
}

#[test]
fn range_queries() {
    assert_eq!(
        query_range("samples", true),
        "SELECT ts, iface, rx_total, tx_total, lan_rx, lan_tx FROM samples WHERE ts>=?1 AND ts<?2 AND iface=?3 ORDER BY ts"
    );
    assert_eq!(
        query_range("samples", false),
        "SELECT ts, '_all', SUM(rx_total), SUM(tx_total), SUM(lan_rx), SUM(lan_tx) FROM samples WHERE ts>=?1 AND ts<?2 GROUP BY ts ORDER BY ts"
    );
    assert_eq!(
        query_range("daily", true),
        "SELECT ts_day, iface, rx, tx, lan_rx, lan_tx FROM daily WHERE ts_day>=?1 AND ts_day<?2 AND iface=?3 ORDER BY ts_day"
    );
    assert_eq!(
        query_range("hourly", false),
        "SELECT ts_hour, '_all', SUM(rx), SUM(tx), SUM(lan_rx), SUM(lan_tx) FROM hourly WHERE ts_hour>=?1 AND ts_hour<?2 GROUP BY ts_hour ORDER BY ts_hour"
    );
    assert!(query_range("monthly", false).contains("ts_mon"));
}
