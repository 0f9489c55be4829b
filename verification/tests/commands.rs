use netmeter::config::Config;
use netmeter::db::{Row, Window};
use netmeter::import::{import_message, read_days, read_vnstat, vnstat_args};
use netmeter::live::Key;
use netmeter::report::{csv_heading, csv_line, split_word, split_works, status_lines, Status};
use netmeter::service::{
    agent_unit, system_unit, systemctl_args, useradd_args, users_home, Control,
};
use netmeter::top_proc::{part_bar, table, total, window_label, AppRow, Viewer};
use netmeter::tree::parse_json;
use netmeter::user_agent::{notice, sentinel_file, watched_period, Mark};

#[test]
fn status_of_the_meter() {
    assert!(split_works(true, 0) && split_works(false, 1) && !split_works(false, 0));
    assert_eq!(split_word(true), "available");
    assert_eq!(split_word(false), "unavailable (TOTAL-only)");
    let mut s = Status {
        version: "0.2.0".into(),
        daemon_active: true,
        split: true,
        db_path: "/x.db".into(),
        db_bytes: 4096,
        wal_bytes: 0,
        discarded: "3".into(),
    };
    assert_eq!(
        status_lines(&s),
        [
            "netmeter 0.2.0",
            "daemon:  active",
            "nft:     split available (LAN/WAN/TOTAL)",
            "db:      /x.db (4096 bytes, wal 0 bytes)",
            "discarded spike samples: 3"
        ]
    );
    s.daemon_active = false;
    s.split = false;
    let v = status_lines(&s);
    assert_eq!(v[1], "daemon:  inactive (run `netmeter daemon install`)");
    assert_eq!(v[2], "nft:     unavailable → TOTAL-only");
}

#[test]
fn exported_lines() {
    assert_eq!(csv_heading(), "ts,rx,tx,lan_rx,lan_tx,wan_rx,wan_tx");
    let r = Row { ts: -5, iface: "a".into(), rx: 100, tx: 50, lan_rx: 30, lan_tx: 60 };
    assert_eq!(csv_line(&r).unwrap(), "-5,100,50,30,60,70,0");
    let big = Row { ts: 0, iface: "a".into(), rx: i64::MAX, tx: 1, lan_rx: 0, lan_tx: 0 };
    assert!(csv_line(&big).is_none());
}

#[test]
fn commands_to_the_manager() {
    assert_eq!(systemctl_args(Control::Start), ["start", "netmeter.service"]);
    assert_eq!(systemctl_args(Control::Stop), ["stop", "netmeter.service"]);
    assert_eq!(systemctl_args(Control::Restart), ["restart", "netmeter.service"]);
    assert_eq!(systemctl_args(Control::Uninstall), ["disable", "--now", "netmeter.service"]);
    assert_eq!(systemctl_args(Control::Reload), ["daemon-reload"]);
    assert_eq!(systemctl_args(Control::Enable), ["enable", "--now", "netmeter.service"]);
    assert_eq!(users_home("ann"), "/home/ann");
    assert_eq!(useradd_args(), ["-r", "-s", "/usr/sbin/nologin", "-d", "/var/lib/netmeter", "netmeter"]);
}

#[test]
fn units_of_the_service() {
    let u = system_unit();
    assert!(u.contains("ExecStart=/usr/bin/netmeter daemon run\n"));
    assert!(u.contains(
        "\nAmbientCapabilities=CAP_NET_ADMIN CAP_NET_RAW CAP_DAC_READ_SEARCH CAP_SYS_PTRACE\n"
    ));
    assert!(u.contains("\nUser=netmeter\n") && !u.contains("{{"));
    let a = agent_unit();
    assert!(a.contains("ExecStart=/usr/bin/netmeter user-agent\n") && !a.contains("{{"));
}

const VNSTAT: &[u8] = br#"{"vnstatversion": "2.10", "interfaces": [
  {"name": "eth0", "traffic": {"days": [
    {"date": {"year": 2026, "month": 9, "day": 6}, "rx": 1000, "tx": 500},
    {"date": {"year": 1999, "month": 12, "day": 31}, "rx": 7, "tx": 7},
    {"date": {"year": 2026, "month": 9}, "rx": 3}
  ]}},
  {"name": "docker0", "traffic": {"days": [{"date": {"year": 2026, "month": 9, "day": 6}, "rx": 1, "tx": 1}]}},
  {"traffic": {"days": [{"date": {"year": 67562, "month": 257, "day": 1}, "rx": 1, "tx": 2}]}},
  {"name": "none"}
]}"#;

#[test]
fn history_is_imported() {
    let cfg = Config::default();
    let utc = jiff::tz::TimeZone::UTC;
    let i = read_vnstat(VNSTAT, &cfg, &utc).unwrap();
    assert!(i.complete);
    let rows: Vec<(i64, &str, i64, i64)> =
        i.rows.iter().map(|r| (r.ts, r.iface.as_str(), r.rx, r.tx)).collect();
    assert_eq!(
        rows,
        [
            (1_788_652_800, "eth0", 1000, 500),
            (1_788_220_800, "eth0", 3, 0),
            (1_767_225_600, "?", 1, 2),
        ]
    );
    for r in &i.rows {
        assert!(!cfg.excluded(&r.iface));
        assert_eq!((r.wan_rx(), r.wan_tx()), (r.rx, r.tx));
    }
    assert_eq!(
        import_message(3),
        "imported 3 daily rows from vnstat (LAN unknown → 0, WAN=TOTAL)"
    );
    assert_eq!(vnstat_args(None), ["--json"]);
    assert_eq!(vnstat_args(Some("/db")), ["--json", "--db", "/db"]);
}

#[test]
fn import_stops_at_a_date_that_is_none() {
    let cfg = Config::default();
    let utc = jiff::tz::TimeZone::UTC;
    let doc = parse_json(br#"{"interfaces": [{"name": "e", "traffic": {"days": [
        {"date": {"year": 2024, "month": 2, "day": 29}, "rx": 1},
        {"date": {"year": 2023, "month": 2, "day": 29}, "rx": 2},
        {"date": {"year": 2024, "month": 3, "day": 1}, "rx": 3}]}}, {"name": "f", "traffic": {"days": [
        {"date": {"year": 2024, "month": 3, "day": 1}, "rx": 3}]}}]}"#).unwrap();
    let i = read_days(&doc, &cfg, &utc);
    assert!(!i.complete);
    assert_eq!(i.rows.len(), 1);
    assert_eq!(i.rows[0].ts, 1_709_164_800);
    let far = br#"{"interfaces": [{"traffic": {"days": [{"date": {"year": 9999, "month": 12, "day": 31}}]}}]}"#;
    assert!(!read_vnstat(far, &cfg, &utc).unwrap().complete);
    assert!(read_vnstat(b"junk", &cfg, &utc).is_none());
    assert!(read_vnstat(b"{}", &cfg, &utc).unwrap().rows.is_empty());
}

#[test]
fn viewer_keys() {
    let mut v = Viewer::new(&Config::default(), Window::Day);
    assert!(!v.press(Key::Char('2')));
    assert_eq!(v.window, Window::Week);
    assert!(!v.press(Key::Char('3')));
    assert_eq!(window_label(v.window), "this month");
    v.press(Key::Char('1'));
    assert_eq!(window_label(v.window), "today");
    assert_eq!(window_label(Window::Week), "since Monday");
    v.press(Key::Char('u'));
    assert!(v.dec);
    assert!(v.press(Key::Esc) && v.press(Key::Char('q')) && !v.press(Key::Other));
}

#[test]
fn usage_of_programs() {
    let app = |c: &str, rx, tx| AppRow { comm: c.into(), rx, tx };
    let rows = vec![app("curl", 600, 400), app("nc", 250, 0)];
    assert_eq!(total(&rows), Some(1250));
    let t = table(&rows, true).unwrap();
    assert_eq!(t[0], ["curl", "600 B", "400 B", "1.0 KB", "██████████"]);
    assert_eq!(t[1], ["nc", "250 B", "0 B", "250 B", "███░░░░░░░"]);
    assert!(table(&Vec::new(), true).unwrap().is_empty());
    assert_eq!(total(&Vec::new()), Some(0));
    assert!(table(&vec![app("x", i64::MAX, 1)], true).is_none());
    assert!(total(&vec![app("x", i64::MAX, 0), app("y", 1, 0)]).is_none());
    for part in [-30i64, -1, 0, 1, 7, 20, 30] {
        for of in [-30i64, -7, 0, 7, 30] {
            let share = (part as f64 / of as f64 * 10.0).round() as usize;
            let fill = ((share as f64 / 10.0).clamp(0.0, 1.0) * 10.0).round() as usize;
            assert_eq!(part_bar(part, of), "█".repeat(fill) + &"░".repeat(10 - fill), "{part} {of}");
        }
    }
}

#[test]
fn notices_are_given_once() {
    let key = "week:2026-08-31";
    assert_eq!(
        notice(Mark::FourFifths, 1, false, "week", key).unwrap(),
        "NetMeter: 80% of weekly budget used (week:2026-08-31)"
    );
    assert_eq!(
        notice(Mark::All, 1, false, "day", "day:2026-09-06").unwrap(),
        "NetMeter: 100% of daily budget used (day:2026-09-06)"
    );
    assert!(notice(Mark::All, 1, true, "week", key).is_none());
    assert!(notice(Mark::All, 0, false, "week", key).is_none());
    assert_eq!(sentinel_file(Mark::FourFifths, key), "budget-week:2026-08-31-80.sent");
    assert_eq!(sentinel_file(Mark::All, key), "budget-week:2026-08-31-100.sent");
}

#[test]
fn what_the_notifier_looks_for() {
    let mut cfg = Config::default();
    assert_eq!(watched_period(&cfg, true, true), None);
    cfg.budget_gb = 1.0f64.to_bits();
    assert_eq!(watched_period(&cfg, true, false), Some("month"));
    assert_eq!(watched_period(&cfg, false, true), Some("month"));
    assert_eq!(watched_period(&cfg, false, false), None);
    cfg.notify_on_budget = false;
    assert_eq!(watched_period(&cfg, true, true), None);
}
