use netmeter::capture::Counter;
use netmeter::config::Config;
use netmeter::daemon::{
    add_discarded, app_row, budget_used, check_budget, crossing_message, delta, enforce_retention,
    max_bytes_per_tick, retention_due, rollup_due, slept, to_signed, wait_for_clock, AppBytes, Meter,
    Reading,
};

#[test]
fn wrap_32bit_accepted() {
    let old = u32::MAX as u64 - 100;
    let (d, disc) = delta(old, 200, u64::MAX);
    assert!(!disc);
    assert_eq!(d, 301);
}

#[test]
fn reset_detected() {
    let (d, _) = delta(5_000_000_000, 1234, u64::MAX);
    assert_eq!(d, 1234);
}

#[test]
fn spike_discarded() {
    let (_, disc) = delta(1000, 1000 + 10_000_000_000, 1_000_000);
    assert!(disc);
}

#[test]
fn growth_is_counted_exactly() {
    assert_eq!(delta(10, 10, 5), (0, false));
    assert_eq!(delta(10, 15, 5), (5, false));
    assert_eq!(delta(10, 16, 5), (0, true));
}

#[test]
fn wrap_at_64_bits() {
    assert_eq!(delta(u64::MAX - 9, 2_000_000, u64::MAX), (2_000_010, false));
    assert_eq!(delta(u64::MAX - 9, 2_000_000, 1_000), (0, true));
}

#[test]
fn reset_below_a_mebibyte_only() {
    assert_eq!(delta(5_000_000_000, 1_048_575, 1_000), (1_048_575, false));
    assert_eq!(delta(5_000_000_000, 1_048_576, 1_000), (0, true));
}

#[test]
fn steady_growth_adds_up() {
    let readings = [5u64, 9, 9, 30, 31, 90];
    let mut total = 0;
    for w in readings.windows(2) {
        total += delta(w[0], w[1], 100).0;
    }
    assert_eq!(total, 85);
}

fn config() -> Config {
    Config::default()
}

#[test]
fn tick_limit_matches_the_formula() {
    let mut cfg = config();
    for mbit in [0u64, 1, 3, 7, 10, 100, 999, 1000, 2500, 10_000, 123_456_789, u64::MAX] {
        for interval in [0u64, 1, 2, 5, 7, 13, 60] {
            cfg.max_rate_mbit = mbit;
            cfg.poll_interval_sec = interval;
            let m = mbit.max(1);
            let want = ((m as f64 * 1_000_000.0 / 8.0) * interval as f64 * 1.25) as u64;
            assert_eq!(max_bytes_per_tick(&cfg, &None), want, "{mbit} {interval}");
        }
    }
}

#[test]
fn link_speed_file_counts_if_it_holds_a_number() {
    let cfg = config();
    assert_eq!(max_bytes_per_tick(&cfg, &Some("1000\n".to_string())), 781_250_000);
    assert_eq!(max_bytes_per_tick(&cfg, &Some("-1\n".to_string())), 7_812_500_000);
    assert_eq!(max_bytes_per_tick(&cfg, &Some("0\n".to_string())), 781_250);
    assert_eq!(max_bytes_per_tick(&cfg, &None), 7_812_500_000);
}

fn reading(iface: &str, rx: u64, tx: u64) -> Reading {
    Reading { iface: iface.to_string(), rx, tx, speed: None }
}

#[test]
fn first_tick_only_sets_the_baseline() {
    let mut m = Meter::new(None);
    let t = m.tick(&config(), 5, &vec![reading("eth0", 1000, 500)], None, &None, 100).unwrap();
    assert!(t.samples.is_empty());
    assert_eq!(t.discarded, 0);
    assert_eq!(m.prev.len(), 1);
    assert_eq!(m.prev[0].rx, 1000);
}

#[test]
fn second_tick_records_the_difference() {
    let cfg = config();
    let mut m = Meter::new(None);
    let first = vec![reading("eth0", 1000, 500), reading("lo", 7, 7), reading("tailscale0", 10, 20)];
    m.tick(&cfg, 5, &first, Some((100, 200)), &None, 100).unwrap();
    let second =
        vec![reading("eth0", 3000, 600), reading("lo", 70, 70), reading("tailscale0", 1010, 320)];
    let t = m.tick(&cfg, 5, &second, Some((400, 260)), &None, 105).unwrap();
    assert_eq!(t.samples.len(), 2);
    let eth = &t.samples[0];
    assert_eq!(eth.iface, "eth0");
    assert_eq!((eth.ts, eth.rx, eth.tx), (105, 2000, 100));
    // 300 local bytes in, 2000 of 3000 on this interface; 60 out, 100 of 400
    assert_eq!((eth.lan_rx, eth.lan_tx), (200, 15));
    assert_eq!(eth.wan_rx() + eth.wan_tx() + eth.lan_rx + eth.lan_tx, eth.total());
    let ts = &t.samples[1];
    assert_eq!(ts.iface, "tailscale0");
    assert_eq!((ts.rx, ts.tx, ts.lan_rx, ts.lan_tx), (1000, 300, 1000, 300));
    assert_eq!(ts.wan_rx() + ts.wan_tx(), 0);
    assert_eq!(m.prev_lan, Some((400, 260)));
}

#[test]
fn shares_match_double_precision() {
    let cfg = config();
    let cases: [(u64, u64, u64); 6] = [
        (1, 3, 1),
        (1_000_003, 7, 999_983),
        (123_456_789, 987_654_321, 555_555_555),
        (3_333_333_333, 1, 2_999_999_999),
        (10, 10, 3),
        (7_000_000_001, 13, 6_999_999_999),
    ];
    for (a, b, lan) in cases {
        let mut m = Meter::new(None);
        m.tick(&cfg, 5, &vec![reading("a", 0, 0), reading("b", 0, 0)], Some((0, 0)), &None, 0);
        let now = vec![reading("a", a, a), reading("b", b, b)];
        let t = m.tick(&cfg, 5, &now, Some((lan, lan)), &None, 1).unwrap();
        let tot = (a + b) as i64;
        for s in &t.samples {
            let f = s.rx as f64 / tot as f64;
            let want = ((lan as i64 as f64 * f) as i64).min(s.rx);
            assert_eq!(s.lan_rx, want);
            assert_eq!(s.lan_tx, want);
        }
    }
}

#[test]
fn without_counters_everything_is_outside() {
    let cfg = config();
    for (was, is) in [(None, None), (Some((1, 1)), None), (None, Some((900, 900)))] {
        let mut m = Meter::new(None);
        let before = vec![reading("eth0", 0, 0), reading("zt1", 0, 0)];
        m.tick(&cfg, 5, &before, was, &None, 0).unwrap();
        let after = vec![reading("eth0", 1000, 500), reading("zt1", 10, 20)];
        let t = m.tick(&cfg, 5, &after, is, &None, 5).unwrap();
        assert_eq!((t.samples[0].lan_rx, t.samples[0].lan_tx), (0, 0));
        assert_eq!((t.samples[1].wan_rx(), t.samples[1].wan_tx()), (0, 0));
    }
}

#[test]
fn a_lone_interface_has_all_local_bytes() {
    let cfg = config();
    let mut m = Meter::new(None);
    m.tick(&cfg, 5, &vec![reading("eth0", 0, 0)], Some((0, 0)), &None, 0).unwrap();
    let t = m.tick(&cfg, 5, &vec![reading("eth0", 997, 331)], Some((611, 400)), &None, 5).unwrap();
    assert_eq!((t.samples[0].lan_rx, t.samples[0].lan_tx), (611, 331));
}

#[test]
fn a_gap_is_never_counted() {
    let cfg = config();
    assert!(slept(11, &cfg) && !slept(10, &cfg));
    let mut m = Meter::new(None);
    m.tick(&cfg, 5, &vec![reading("eth0", 1000, 500)], None, &None, 0).unwrap();
    let t = m.tick(&cfg, 11, &vec![reading("eth0", 9000, 500)], Some((1, 2)), &None, 11).unwrap();
    assert!(t.samples.is_empty());
    assert!(m.prev.is_empty());
    assert_eq!(m.prev_lan, Some((1, 2)));
    let t = m.tick(&cfg, 5, &vec![reading("eth0", 9500, 500)], Some((1, 2)), &None, 16).unwrap();
    assert!(t.samples.is_empty());
    let t = m.tick(&cfg, 10, &vec![reading("eth0", 9600, 500)], Some((1, 2)), &None, 26).unwrap();
    assert_eq!(t.samples[0].rx, 100);
}

#[test]
fn spikes_are_thrown_away_and_counted() {
    let mut cfg = config();
    cfg.max_rate_mbit = 1;
    let mut m = Meter::new(None);
    m.tick(&cfg, 5, &vec![reading("eth0", 1000, 500)], None, &None, 0).unwrap();
    let t = m.tick(&cfg, 5, &vec![reading("eth0", 10_000_000, 700)], None, &None, 5).unwrap();
    assert_eq!(t.discarded, 1);
    assert!(t.samples.is_empty());
    assert_eq!((m.prev[0].rx, m.prev[0].tx), (1000, 500));
    let t = m.tick(&cfg, 5, &vec![reading("eth0", 1300, 800)], None, &None, 10).unwrap();
    assert_eq!(t.discarded, 0);
    assert_eq!((t.samples[0].rx, t.samples[0].tx), (300, 300));
    assert_eq!((m.prev[0].rx, m.prev[0].tx), (1300, 800));
}

#[test]
fn a_spike_leaves_other_interfaces_alone() {
    let mut cfg = config();
    cfg.max_rate_mbit = 1;
    let mut m = Meter::new(None);
    m.tick(&cfg, 5, &vec![reading("a", 10, 10), reading("b", 20, 20)], None, &None, 0).unwrap();
    let now = vec![reading("a", 11, 10_000_000), reading("b", 25, 26)];
    let t = m.tick(&cfg, 5, &now, None, &None, 5).unwrap();
    assert_eq!(t.discarded, 1);
    assert_eq!(t.samples.len(), 1);
    assert_eq!((t.samples[0].iface.as_str(), t.samples[0].rx, t.samples[0].tx), ("b", 5, 6));
    let of = |m: &Meter, name: &str| {
        m.prev.iter().find(|c| c.iface == name).map(|c| (c.rx, c.tx)).unwrap()
    };
    assert_eq!(of(&m, "a"), (10, 10));
    assert_eq!(of(&m, "b"), (25, 26));
}

#[test]
fn a_local_spike_keeps_the_baseline() {
    let mut cfg = config();
    cfg.max_rate_mbit = 1;
    let mut m = Meter::new(None);
    m.tick(&cfg, 5, &vec![reading("a", 0, 0)], Some((100, 50)), &None, 0).unwrap();
    let spike = Some((10_000_000, 60));
    let t = m.tick(&cfg, 5, &vec![reading("a", 900, 90)], spike, &None, 5).unwrap();
    assert_eq!(t.discarded, 1);
    assert_eq!((t.samples[0].rx, t.samples[0].lan_rx, t.samples[0].lan_tx), (900, 0, 0));
    assert_eq!(m.prev_lan, Some((100, 50)));
    let both = vec![reading("a", 90_000_000, 90)];
    let t = m.tick(&cfg, 5, &both, spike, &None, 10).unwrap();
    assert_eq!(t.discarded, 2);
    let t = m.tick(&cfg, 5, &vec![reading("a", 1000, 190)], Some((140, 60)), &None, 15).unwrap();
    assert_eq!(t.discarded, 0);
    assert_eq!((t.samples[0].lan_rx, t.samples[0].lan_tx), (40, 10));
    assert_eq!(m.prev_lan, Some((140, 60)));
}

#[test]
fn only_what_counts_is_sampled() {
    let cfg = config();
    let mut m = Meter::new(Some(100));
    for k in 1..6u64 {
        let now = vec![
            reading("lo", k * 10, k * 10),
            reading("docker0", k, k),
            reading("eth0", k * 7, 0),
            reading("idle", 5, 5),
        ];
        let t = m.tick(&cfg, 5, &now, None, &None, 90 + 2 * k as i64).unwrap();
        let names: Vec<&str> = t.samples.iter().map(|s| s.iface.as_str()).collect();
        if k < 5 {
            assert!(names.is_empty());
        } else {
            assert_eq!(names, ["eth0"]);
            assert_eq!(t.samples[0].rx, 28);
        }
    }
}

#[test]
fn a_clock_that_steps_back_holds_bytes() {
    let cfg = config();
    let mut m = Meter::new(Some(1000));
    m.tick(&cfg, 5, &vec![reading("a", 0, 0)], Some((0, 0)), &None, 900).unwrap();
    let t = m.tick(&cfg, 5, &vec![reading("a", 100, 10)], Some((30, 1)), &None, 905).unwrap();
    assert!(t.samples.is_empty());
    let both = vec![reading("a", 150, 20), reading("b", 5, 5)];
    let t = m.tick(&cfg, 5, &both, Some((40, 2)), &None, 910).unwrap();
    assert!(t.samples.is_empty());
    assert_eq!(m.held.len(), 1);
    assert_eq!((m.held[0].rx, m.held[0].tx), (150, 20));
    assert_eq!(m.held_lan, (40, 2));
    let both = vec![reading("a", 157, 20), reading("b", 8, 5)];
    let t = m.tick(&cfg, 5, &both, Some((50, 3)), &None, 1000).unwrap();
    assert_eq!(t.samples.len(), 2);
    assert_eq!((t.samples[0].ts, t.samples[0].rx, t.samples[0].tx), (1000, 157, 20));
    assert_eq!((t.samples[1].iface.as_str(), t.samples[1].rx), ("b", 3));
    assert_eq!((t.samples[0].lan_rx, t.samples[1].lan_rx), (49, 0));
    assert!(m.held.is_empty());
    assert_eq!(m.last, 1000);
    let both = vec![reading("a", 158, 20), reading("b", 8, 5)];
    let t = m.tick(&cfg, 5, &both, Some((50, 3)), &None, 999).unwrap();
    assert!(t.samples.is_empty());
}

#[test]
fn a_tick_that_does_not_fit_is_refused() {
    let mut cfg = config();
    cfg.max_rate_mbit = u64::MAX;
    let mut m = Meter {
        prev: vec![Counter { iface: "e".into(), rx: 0, tx: 0 }],
        prev_lan: None,
        last: 0,
        held: vec![],
        held_lan: (0, 0),
    };
    assert!(m.tick(&cfg, 5, &vec![reading("e", u64::MAX, 0)], None, &None, 0).is_none());
}

#[test]
fn discarded_samples_add_up() {
    assert_eq!(add_discarded("0", 3).unwrap(), "3");
    assert_eq!(add_discarded("41", 1).unwrap(), "42");
    assert_eq!(add_discarded("junk", 2).unwrap(), "2");
    assert_eq!(add_discarded("-5", 2).unwrap(), "-3");
    assert!(add_discarded("9223372036854775807", 1).is_none());
}

#[test]
fn retention_cutoffs() {
    let mut cfg = config();
    let c = enforce_retention(&cfg, 100_000_000).unwrap();
    assert_eq!(c.samples, 100_000_000 - 30 * 86400);
    assert_eq!(c.hourly, 100_000_000 - 365 * 86400);
    assert_eq!(c.proc_hourly, 100_000_000 - 30 * 86400);
    cfg.proc_retention_days = -4;
    assert_eq!(enforce_retention(&cfg, 100_000_000).unwrap().proc_hourly, 100_000_000 - 86400);
    cfg.retention_days_raw = i64::MAX;
    assert!(enforce_retention(&cfg, 0).is_none());
}

#[test]
fn schedules() {
    assert!(!rollup_due(3600, 0));
    assert!(rollup_due(3600, 1));
    assert!(!retention_due(3600, 0));
    assert!(retention_due(3600, 1));
    assert!(wait_for_clock(0, 0));
    assert!(wait_for_clock(11, 1_577_836_800));
    assert!(!wait_for_clock(12, 0));
    assert!(!wait_for_clock(0, 1_577_836_801));
}

#[test]
fn budget_bases() {
    assert_eq!(budget_used("total", 100, 50, 30, 60), Some(150));
    assert_eq!(budget_used("wan", 100, 50, 30, 60), Some(70));
    assert_eq!(budget_used("total", i64::MAX, 1, 0, 0), None);
    assert_eq!(budget_used("wan", i64::MIN, 0, 1, 0), None);
}

#[test]
fn budget_marks() {
    let c = check_budget(79, 100, 0, 0);
    assert!(!c.mark80 && !c.mark100);
    let c = check_budget(80, 100, 0, 0);
    assert!(c.mark80 && !c.mark100);
    let c = check_budget(100, 100, 0, 0);
    assert!(c.mark80 && c.mark100);
    let c = check_budget(100, 100, 1, 0);
    assert!(!c.mark80 && c.mark100);
    let c = check_budget(200, 100, 1, 1);
    assert!(!c.mark80 && !c.mark100);
    let c = check_budget(10, 0, 0, 0);
    assert!(!c.mark80 && !c.mark100);
    let c = check_budget(-10, 100, 0, 0);
    assert!(!c.mark80 && !c.mark100);
}

#[test]
fn full_means_as_many_bytes() {
    let most = (1i64 << 53) - 1;
    for budget in [1i64, 3, 1_000_003, 53_687_091_200, most] {
        assert!(!check_budget(budget - 1, budget, 0, 0).mark100);
        assert!(check_budget(budget, budget, 0, 0).mark100);
    }
}

#[test]
fn marks_match_double_precision() {
    for budget in [1i64, 3, 5, 7, 10, 1_073_741_823, 1_073_741_824, i64::MAX] {
        for k in 0..40i64 {
            let used = (budget / 40).wrapping_mul(k).max(0) + k % 3;
            let f = used as f64 / budget as f64;
            let c = check_budget(used, budget, 0, 0);
            assert_eq!(c.mark80, f >= 0.8, "{used} {budget}");
            assert_eq!(c.mark100, f >= 1.0, "{used} {budget}");
        }
    }
}

#[test]
fn crossing_is_logged() {
    assert_eq!(
        crossing_message("80", "week", 85, 100),
        "NetMeter: 80% of weekly budget used (85/100 bytes)"
    );
}

#[test]
fn program_rows() {
    let app = |rx, tx| AppBytes { comm: "x".into(), rx, tx };
    assert_eq!(app_row(&app(0, 0)), None);
    assert_eq!(app_row(&app(0, 2)), Some((0, 2)));
    assert_eq!(app_row(&app(u64::MAX, 2)), Some((-1, 2)));
    assert_eq!(app_row(&app(u64::MAX, u64::MAX)), None);
    assert_eq!(to_signed(1 << 63), i64::MIN);
    assert_eq!(to_signed(7), 7);
}
