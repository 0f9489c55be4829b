use netmeter::capture::Counter;
use netmeter::config::Config;
use netmeter::db::Row;
use netmeter::double::of_int;
use netmeter::live::{
    arrows, bar_widths, budget_gauge, cells, fmt_rate, heights, history, history_due, history_range,
    lan_rate, load_history, look, max_row, month_strip, outside, per_second, ranked, session_total,
    share_bar, sum, total_rate, totals, totals_due, Controls, Hist, IfRow, Key, Level,
};

#[test]
fn keys() {
    let mut c = Controls::new(&Config::default());
    assert_eq!((c.dec, c.interval_ms), (false, 1000));
    assert!(!c.press(Key::Char('u')) && c.dec);
    for want in [750, 500, 250, 250] {
        assert!(!c.press(Key::Char('+')));
        assert_eq!(c.interval_ms, want);
    }
    c.press(Key::Char('='));
    assert_eq!(c.interval_ms, 250);
    for _ in 0..40 {
        c.press(Key::Char('-'));
    }
    assert_eq!(c.interval_ms, 5000);
    assert!(!c.press(Key::Char('x')) && !c.press(Key::Other));
    assert!(c.press(Key::Char('q')) && c.press(Key::Esc));
}

#[test]
fn schedules_of_the_dashboard() {
    assert!(totals_due(1) && totals_due(6) && !totals_due(5));
    assert!(history_due(1) && history_due(16) && !history_due(6));
}

#[test]
fn rates_match_double_precision() {
    for ms in [250u64, 500, 750, 1000, 1250, 1750, 3250, 5000] {
        let per = 1000.0 / ms as f64;
        for n in [0u64, 1, 3, 999, 1_000_003, 123_456_789_012, u64::MAX] {
            let b = (n as f64 * per) as i64;
            let want = netmeter::fmtx::fmt_bytes(b, false) + "/s";
            assert_eq!(fmt_rate(n, per_second(ms), false), want);
        }
    }
    assert_eq!(total_rate(2048, false), "2.0 KiB/s ");
}

#[test]
fn local_rates() {
    let one = of_int(1);
    assert_eq!(lan_rate("…".into(), Some((10, 20)), Some((1034, 10)), true, one, false), "+1.0 KiB/s/+0 B/sB");
    assert_eq!(lan_rate("…".into(), None, Some((1, 1)), true, one, false), "…");
    assert_eq!(lan_rate("…".into(), None, None, false, one, false), "n/a TOTAL-only");
}

fn counter(iface: &str, rx: u64, tx: u64) -> Counter {
    Counter { iface: iface.into(), rx, tx }
}

#[test]
fn a_look_at_the_interfaces() {
    let cfg = Config::default();
    let prev = vec![counter("eth0", 100, 100), counter("lo", 5, 5), counter("wlan0", 50, 60)];
    let cur = vec![
        counter("eth0", 1100, 90),
        counter("lo", 10, 10),
        counter("wlan0", 60, 5060),
        counter("new0", 9, 9),
    ];
    let mut session = vec![counter("eth0", 7, 7)];
    let rows = look(&prev, &cur, &mut session, &cfg, None, per_second(500)).unwrap();
    assert_eq!(rows.len(), 2);
    assert_eq!((rows[0].iface.as_str(), rows[0].down, rows[0].up), ("eth0", 2000, 0));
    assert_eq!((rows[0].session_rx, rows[0].session_tx), (1007, 7));
    assert_eq!((rows[1].down, rows[1].up), (20, 10_000));
    assert_eq!(session_total(&session), Some((1017, 5007)));
    let order = ranked(&rows);
    assert_eq!(order[0].iface, "wlan0");
    assert_eq!(totals(&order), Some((2020, 10_000)));
    assert_eq!(max_row(&order), 10_020);
    let only = look(&prev, &cur, &mut session, &cfg, Some("eth0"), per_second(1000)).unwrap();
    assert_eq!(only.len(), 1);
    assert_eq!(only[0].session_rx, 2007);
}

#[test]
fn sums_that_do_not_fit() {
    let cfg = Config::default();
    let mut session = vec![counter("e", u64::MAX, 0)];
    let (prev, cur) = (vec![counter("e", 0, 0)], vec![counter("e", 1, 0)]);
    assert!(look(&prev, &cur, &mut session, &cfg, None, per_second(1000)).is_none());
    let big = |d| IfRow { iface: "x".into(), down: d, up: 0, session_rx: 0, session_tx: 0 };
    assert!(totals(&vec![big(u64::MAX), big(1)]).is_none());
    assert!(session_total(&vec![counter("a", u64::MAX, 0), counter("b", 1, 0)]).is_none());
}

#[test]
fn ranking_is_stable() {
    let row = |n: &str, d, u| IfRow { iface: n.into(), down: d, up: u, session_rx: 0, session_tx: 0 };
    let rows = vec![row("a", 1, 1), row("b", 5, 0), row("c", 2, 0), row("d", 0, 5)];
    let names: Vec<String> = ranked(&rows).into_iter().map(|r| r.iface).collect();
    assert_eq!(names, ["b", "d", "a", "c"]);
    assert_eq!(max_row(&Vec::new()), 1);
    assert_eq!(max_row(&vec![row("a", 0, 0)]), 0);
}

#[test]
fn cells_of_an_interface() {
    let r = IfRow { iface: "eth0".into(), down: 1024, up: 512, session_rx: 2048, session_tx: 1024 };
    assert_eq!(
        cells(&r, 3072, false),
        ["eth0", "1.0 KiB/s", "512 B/s", "█████░░░░░", "3.0 KiB"]
    );
    assert_eq!(share_bar(0, 0), "░░░░░░░░░░");
    for n in 0..=60u64 {
        let share = (n as f64 / 60.0 * 10.0).round() as usize;
        let fill = ((share as f64 / 10.0).clamp(0.0, 1.0) * 10.0).round() as usize;
        assert_eq!(share_bar(n, 60), "█".repeat(fill) + &"░".repeat(10 - fill));
    }
}

#[test]
fn header_texts() {
    assert_eq!(arrows(1024, 0, false), "▼1.0 KiB ▲0 B ");
    assert_eq!(outside(10, 4), Some(6));
    assert_eq!(outside(4, 10), Some(0));
    assert_eq!(outside(i64::MIN, 1), None);
}

#[test]
fn gauges() {
    let gib = 1_073_741_824i64;
    let g = budget_gauge("month", 40 * gib, 50.0f64.to_bits(), gib, false).unwrap();
    assert_eq!(g.title, " month 40.0/50 GiB │ WAN 1.0 GiB ");
    assert_eq!((g.percent, g.level), (80, Level::Warning));
    let g = budget_gauge("day", 60 * gib, 50.0f64.to_bits(), 0, false).unwrap();
    assert_eq!((g.percent, g.level), (100, Level::Full));
    let g = budget_gauge("day", 0, 50.0f64.to_bits(), 0, false).unwrap();
    assert_eq!((g.percent, g.level), (0, Level::Calm));
    assert!(budget_gauge("day", -1, 50.0f64.to_bits(), 0, false).is_none());
    let g = budget_gauge("day", gib, f64::INFINITY.to_bits(), 0, false).unwrap();
    assert_eq!(g.title, " day 1.0/inf GiB │ WAN 0 B ");
    assert_eq!(g.percent, 0);
    let g = budget_gauge("day", -3 * gib, f64::INFINITY.to_bits(), 0, false).unwrap();
    assert_eq!(g.title, " day -3.0/inf GiB │ WAN 0 B ");
    assert_eq!((g.percent, g.level), (0, Level::Calm));
}

#[test]
fn gauges_of_a_negative_use() {
    let edge = f64::from_bits(0x7e10_0000_0000_0000);
    for gb in [1.0, 1e298, edge / 2.0, edge, 1e300, f64::MAX, f64::INFINITY] {
        for used in [i64::MIN, -123_456_789_012, -1] {
            let frac = used as f64 / (gb * 1_073_741_824.0);
            let g = budget_gauge("day", used, gb.to_bits(), 0, true);
            assert_eq!(g.is_some(), frac >= 0.0, "{gb} {used}");
            if let Some(g) = g {
                assert_eq!(g.percent, 0);
                assert_eq!(
                    g.title,
                    format!(" day {:.1}/{:.0} GiB │ WAN 0 B ", used as f64 / 1_073_741_824.0, gb)
                );
            }
        }
    }
}

#[test]
fn gauges_match_double_precision() {
    for gb in [1e-320f64, 1e-9, 0.1, 0.7, 2.5, 3.5, 50.0, 1e6, 1e22, 1e300] {
        for used in [0i64, 1, 1000, 123_456_789, 5_000_000_000, i64::MAX] {
            let g = budget_gauge("month", used, gb.to_bits(), 0, true).unwrap();
            let frac = used as f64 / (gb * 1_073_741_824.0);
            assert_eq!(g.percent, (frac.clamp(0.0, 1.0) * 100.0) as u16, "{gb} {used}");
            assert_eq!(
                g.title,
                format!(" month {:.1}/{:.0} GiB │ WAN 0 B ", used as f64 / 1_073_741_824.0, gb)
            );
        }
    }
}

#[test]
fn month_without_a_budget() {
    assert_eq!(
        month_strip(3000, 2000, 1000, 500, 2000, true).unwrap(),
        " month 3.0 KB (▼2.0 KB ▲1.0 KB) │ LAN 500 B/2.0 KB │ WAN 1.5 KB/0 B │ set a budget: `netmeter config set budget_gb 50`"
    );
    assert!(month_strip(0, i64::MIN, 0, 1, 0, true).is_none());
}

fn row(ts: i64, rx: i64, tx: i64) -> Row {
    Row { ts, iface: "_all".into(), rx, tx, lan_rx: 0, lan_tx: 0 }
}

#[test]
fn history_bars() {
    let utc = jiff::tz::TimeZone::UTC;
    let rows = vec![row(7200, 3, 4), row(0, -1, 2), row(3600, 5, -6)];
    let h = history(&rows, 2, false, &utc).unwrap();
    assert_eq!(h.labels, ["01", "02"]);
    assert_eq!((h.down.clone(), h.up.clone()), (vec![5, 3], vec![0, 4]));
    assert_eq!(sum(&h), Some(12));
    assert_eq!(heights(&h), Some(vec![5, 7]));
    let d = history(&rows, 9, true, &utc).unwrap();
    assert_eq!(d.labels, ["01", "01", "01"]);
    assert!(history(&vec![row(i64::MAX, 0, 0)], 2, false, &utc).is_none());
}

#[test]
fn history_is_looked_for() {
    let p = history_range(24, false, 1_000_000).unwrap();
    assert_eq!((p.table, p.from, p.to), ("hourly", 1_000_000 - 86400, 1_000_001));
    let p = history_range(30, true, 10_000_000).unwrap();
    assert_eq!((p.table, p.from, p.to), ("daily", 10_000_000 - 2_592_000, 10_000_001));
    assert!(history_range(1, true, i64::MAX).is_none());
    assert!(history_range(1, true, i64::MIN).is_none());
    assert!(history_range(usize::MAX, false, 0).is_none());
}

#[test]
fn history_falls_back_to_samples() {
    let utc = jiff::tz::TimeZone::UTC;
    let samples = vec![row(10, 1, 1), row(20, 2, 2), row(86_410, 5, 5)];
    let h = load_history(&Vec::new(), &samples, 30, true, &utc).unwrap();
    assert_eq!(h.labels, ["01", "02"]);
    assert_eq!(h.down, [3, 5]);
    let h = load_history(&vec![row(172_800, 9, 9)], &samples, 30, true, &utc).unwrap();
    assert_eq!((h.labels, h.down), (vec!["03".to_string()], vec![9]));
}

#[test]
fn bars_do_not_count_local_bytes() {
    let utc = jiff::tz::TimeZone::UTC;
    let local = |ts: i64| Row { lan_rx: i64::MAX, lan_tx: i64::MAX, ..row(ts, 1, 2) };
    let h = load_history(&Vec::new(), &vec![local(10), local(20)], 30, true, &utc).unwrap();
    assert_eq!((h.down, h.up), (vec![2], vec![4]));
    let full = vec![row(10, i64::MAX, 0), row(20, 1, 0)];
    assert!(load_history(&Vec::new(), &full, 30, true, &utc).is_none());
}

#[test]
fn bars_that_do_not_fit() {
    let h = Hist { labels: vec!["00".into()], down: vec![u64::MAX], up: vec![1] };
    assert_eq!(sum(&h), None);
    assert_eq!(heights(&h), None);
    assert_eq!(bar_widths(24), (3, 1));
    assert_eq!(bar_widths(25), (2, 0));
    assert_eq!(bar_widths(41), (1, 0));
}
