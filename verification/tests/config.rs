use netmeter::config::{
    bytes_of_budget, float_text, glob_match, layered, merge_value, read_by_daemon, set_key,
    set_note, set_path, shellexpand_tilde, typed, Config, Overrides, Scalar,
};
use netmeter::tree::{get, items_in, parse_toml, read_float, signed_in, text_in, Node};

fn no_overrides() -> Overrides {
    Overrides {
        database_path: None,
        poll_interval_sec: None,
        units: None,
        budget_gb: None,
        budget_period: None,
    }
}

#[test]
fn defaults() {
    let c = Config::default();
    assert_eq!(c.poll_interval_sec, 5);
    assert_eq!(c.database_path, "/var/lib/netmeter/netmeter.db");
    assert_eq!(c.units, "binary");
    assert_eq!(c.timezone, "local");
    assert_eq!(c.exclude_ifaces, ["lo", "docker*", "veth*", "br-*", "virbr*"]);
    assert_eq!(
        c.lan_subnets,
        ["10.0.0.0/8", "172.16.0.0/12", "192.168.0.0/16", "fe80::/10", "fc00::/7"]
    );
    assert_eq!(c.force_lan_ifaces, ["tailscale0*", "zt*"]);
    assert_eq!((c.retention_days_raw, c.retention_days_hourly, c.proc_retention_days), (30, 365, 30));
    assert!(c.proc_recording && c.notify_on_budget);
    assert_eq!(c.max_rate_mbit, 10_000);
    assert_eq!((c.budget_period.as_str(), c.budget_gb, c.budget_basis.as_str()), ("month", 0, "total"));
    assert!(c.effective_budget().is_none());
    assert!(c.local_time() && !c.decimal_units());
    assert_eq!(Config::system_path(), "/etc/netmeter/config.toml");
}

#[test]
fn globs() {
    assert!(glob_match("lo", "lo"));
    assert!(!glob_match("lo", "lo0"));
    assert!(glob_match("docker*", "docker"));
    assert!(glob_match("docker*", "docker0"));
    assert!(!glob_match("docker*", "dock"));
    assert!(glob_match("*", ""));
    assert!(glob_match("*", "anything"));
    assert!(glob_match("a**", "a*b"));
    assert!(!glob_match("a*b", "axb"));
    assert!(glob_match("", ""));
    let c = Config::default();
    assert!(c.excluded("veth1234") && !c.excluded("eth0"));
    assert!(c.forced_lan("tailscale0") && !c.forced_lan("eth0"));
}

#[test]
fn budgets_that_count() {
    let mut c = Config::default();
    c.budget_gb = 50.0f64.to_bits();
    assert_eq!(c.effective_budget(), Some(("month", 50.0f64.to_bits())));
    c.budget_period = "week".into();
    assert_eq!(c.effective_budget().unwrap().0, "week");
    c.budget_period = "year".into();
    assert_eq!(c.effective_budget().unwrap().0, "month");
    for off in [0.0f64, -0.0, -1.0, f64::NAN, f64::NEG_INFINITY] {
        c.budget_gb = off.to_bits();
        assert!(c.effective_budget().is_none(), "{off}");
    }
    c.budget_gb = f64::INFINITY.to_bits();
    assert!(c.effective_budget().is_some());
}

#[test]
fn budget_bytes_match_double_precision() {
    for gb in [1e-320f64, 1e-12, 9.3e-10, 0.1, 0.5, 1.0, 2.0, 49.99, 50.0, 1e9, 8.6e9, 1e10, 1e308, f64::INFINITY] {
        assert_eq!(bytes_of_budget(gb.to_bits()), (gb * 1_073_741_824.0) as i64, "{gb}");
    }
}

#[test]
fn environment_overrides() {
    let mut env = no_overrides();
    env.database_path = Some("/tmp/x.db".into());
    env.poll_interval_sec = Some("7".into());
    env.units = Some("decimal".into());
    env.budget_gb = Some(2.5f64.to_bits());
    env.budget_period = Some("day".into());
    let c = Config::default().with_overrides(env);
    assert_eq!(c.database_path, "/tmp/x.db");
    assert_eq!(c.poll_interval_sec, 7);
    assert_eq!(c.units, "decimal");
    assert_eq!(c.effective_budget(), Some(("day", 2.5f64.to_bits())));
    assert_eq!(c.timezone, "local");
}

#[test]
fn poll_interval_is_clamped() {
    for (text, want) in [("0", 1), ("1", 1), ("60", 60), ("61", 60), ("junk", 5), ("-3", 5), ("+9", 9)] {
        let mut env = no_overrides();
        env.poll_interval_sec = Some(text.into());
        assert_eq!(Config::default().with_overrides(env).poll_interval_sec, want, "{text}");
    }
    let mut c = Config::default();
    c.poll_interval_sec = 900;
    assert_eq!(c.with_overrides(no_overrides()).poll_interval_sec, 60);
}

#[test]
fn topmost_layer_counts() {
    let defaults = parse_toml("a = 1\nb = 1\nc = 1\n").unwrap();
    let v = layered(defaults, Some("b = 2\nc = 2\nd = 2\n"), Some("c = 3\n"));
    let n = |k| signed_in(get(&v, k));
    assert_eq!((n("a"), n("b"), n("c"), n("d"), n("e")), (Some(1), Some(2), Some(3), Some(2), None));
}

#[test]
fn broken_files_are_left_out() {
    let defaults = parse_toml("a = 1\n").unwrap();
    let v = layered(defaults, Some("a = = 2"), None);
    assert_eq!(signed_in(get(&v, "a")), Some(1));
}

#[test]
fn merging_replaces_whole_values() {
    let base = parse_toml("x = 1\n[t]\na = 1\nb = 1\n").unwrap();
    let over = parse_toml("[t]\na = 2\n").unwrap();
    let m = merge_value(base, over);
    let t = get(&m, "t").unwrap();
    assert_eq!(signed_in(get(t, "a")), Some(2));
    assert_eq!(signed_in(get(t, "b")), None);
    assert_eq!(signed_in(get(&m, "x")), Some(1));
    let kept = merge_value(Node::Bool(true), Node::Table(Vec::new()));
    assert!(matches!(kept, Node::Bool(true)));
}

#[test]
fn typed_values() {
    assert!(matches!(typed("42"), Scalar::Integer(42)));
    assert!(matches!(typed("-9223372036854775808"), Scalar::Integer(i64::MIN)));
    assert!(matches!(typed("9223372036854775808"), Scalar::Float(_)));
    assert!(matches!(typed("2.5"), Scalar::Float(_)));
    assert!(matches!(typed("true"), Scalar::Boolean(true)));
    assert!(matches!(typed("false"), Scalar::Boolean(false)));
    assert!(matches!(typed("True"), Scalar::Text(_)));
    assert!(matches!(typed("day"), Scalar::Text(_)));
    assert!(matches!(typed(""), Scalar::Text(_)));
}

#[test]
fn float_texts_are_those_of_the_standard_parser() {
    for s in [
        "1", "1.", ".5", ".", "", "+", "-", "+1.5", "-.5e3", "1e", "1e+", "1e+5", "1E-7", "e5", "1e5.0", "inf",
        "-INF", "Infinity", "infinit", "nan", "+NaN", "1_0", " 1", "1 ", "0x10", "1e5e5", "..5", "1..", "--1",
        "+-1", "in", "1f", "९",
    ] {
        let chars: Vec<char> = s.chars().collect();
        assert_eq!(float_text(&chars), s.parse::<f64>().is_ok(), "{s:?}");
    }
}

#[test]
fn setting_a_key() {
    let set = |file: Option<&str>, key: &str, value: &str| set_key(file, key.into(), value);
    assert_eq!(set(Some("b = 2\na = 1\n"), "a", "true").unwrap(), "a = true\nb = 2\n");
    assert_eq!(set(Some("a = 1\nc = 2\n"), "b", "-7").unwrap(), "a = 1\nb = -7\nc = 2\n");
    assert_eq!(set(Some("not toml at all ="), "k", "v").unwrap(), "k = \"v\"\n");
    assert_eq!(set(None, "budget_gb", "2.5").unwrap(), "budget_gb = 2.5\n");
    assert_eq!(set(None, "x", "inf").unwrap(), "x = inf\n");
    assert_eq!(set(None, "x", "false").unwrap(), "x = false\n");
    let t = parse_toml(&set(Some("l = [1, 2]\n[t]\nz = 1.5\n"), "k", "day").unwrap()).unwrap();
    assert_eq!(text_in(get(&t, "k")).unwrap(), "day");
    assert_eq!(items_in(get(&t, "l")).unwrap().len(), 2);
    let inner = get(get(&t, "t").unwrap(), "z");
    assert!(matches!(inner, Some(Node::Float(b)) if *b == 1.5f64.to_bits()));
}

#[test]
fn numbers_by_their_bits() {
    for s in ["1", "2.5", "-0.1", "1e300", "+.5", "1e-320", "inf", "-Infinity", "1e999"] {
        assert_eq!(read_float(s), Some(s.parse::<f64>().unwrap().to_bits()), "{s}");
    }
    assert!(f64::from_bits(read_float("nan").unwrap()).is_nan());
    assert_eq!(read_float("1,5"), None);
    assert_eq!(read_float(""), None);
}

#[test]
fn keys_of_the_daemon() {
    assert!(read_by_daemon("budget_gb"));
    assert!(!read_by_daemon("units"));
    let note = set_note("timezone", false).unwrap();
    assert_eq!(note, "note: `timezone` affects the daemon, which reads /etc/netmeter/config.toml — set it there (sudo) or the service won't see this value");
    assert!(set_note("timezone", true).is_none());
    assert!(set_note("units", false).is_none());
    assert_eq!(set_path(true, None).unwrap(), "/etc/netmeter/config.toml");
    assert_eq!(set_path(false, Some("/u".into())).unwrap(), "/u");
    assert!(set_path(false, None).is_none());
}

#[test]
fn paths() {
    assert_eq!(shellexpand_tilde("~/x.db", Some("/home/u")), "/home/u/x.db");
    assert_eq!(shellexpand_tilde("~/x.db", None), "~/x.db");
    assert_eq!(shellexpand_tilde("~x", Some("/home/u")), "~x");
    assert_eq!(shellexpand_tilde("/a/~/b", Some("/home/u")), "/a/~/b");
    let mut c = Config::default();
    c.database_path = "~/n.db".into();
    assert_eq!(c.db_path_expanded(Some("/root")), "/root/n.db");
    assert_eq!(Config::user_path(Some("/c/netmeter"), Some("/h")).unwrap(), "/c/netmeter/config.toml");
    assert_eq!(Config::user_path(None, Some("/h")).unwrap(), "/h/.config/netmeter/config.toml");
    assert_eq!(Config::user_path(None, Some("/")).unwrap(), "/.config/netmeter/config.toml");
    assert!(Config::user_path(None, None).is_none());
}
