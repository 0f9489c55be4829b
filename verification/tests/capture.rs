use netmeter::capture::{lan_bytes, read_nft, read_proc, read_sysfs, render_ruleset, Statistics};
use netmeter::tree::parse_json;

const DEV: &str = "Inter-|   Receive                                                |  Transmit
 face |bytes    packets errs drop fifo frame compressed multicast|bytes    packets errs drop fifo colls carrier compressed
    lo:   1000      10    0    0    0     0          0         0     1000      10    0    0    0     0       0          0
  eth0: 5000000000 4711    0    0    0     0          0         0  1234567    4242    0    0    0     0       0          0
 short: 1 2 3
 no colon here
wlan0:junk 1 2 3 4 5 6 7 18446744073709551616 9 10 11 12 13 14 15
";

#[test]
fn totals_of_interfaces() {
    let v = read_proc(DEV);
    let find = |n: &str| v.iter().find(|c| c.iface == n).map(|c| (c.rx, c.tx));
    assert_eq!(v.len(), 3);
    assert_eq!(find("lo"), Some((1000, 1000)));
    assert_eq!(find("eth0"), Some((5_000_000_000, 1_234_567)));
    assert_eq!(find("wlan0"), Some((0, 0)));
    assert_eq!(find("short"), None);
}

#[test]
fn later_lines_replace_earlier_ones() {
    let text = "h\nh\ne: 1 0 0 0 0 0 0 0 2 0 0 0 0 0 0 0\r\n e : 3 0 0 0 0 0 0 0 4 0 0 0 0 0 0 0";
    let v = read_proc(text);
    assert_eq!(v.len(), 1);
    assert_eq!((v[0].iface.as_str(), v[0].rx, v[0].tx), ("e", 3, 4));
    assert!(read_proc("").is_empty());
    assert!(read_proc("one\ntwo").is_empty());
}

#[test]
fn totals_from_statistics_files() {
    let s = |n: &str, rx: Option<&str>, tx: Option<&str>| Statistics {
        iface: n.into(),
        rx_bytes: rx.map(str::to_string),
        tx_bytes: tx.map(str::to_string),
    };
    let v = read_sysfs(&vec![s("a", Some("12\n"), Some(" 34 ")), s("b", None, Some("x"))]);
    assert_eq!((v[0].rx, v[0].tx), (12, 34));
    assert_eq!((v[1].rx, v[1].tx), (0, 0));
}

#[test]
fn local_counters() {
    let json = br#"{"nftables": [{"metainfo": {"version": "1.0.9"}},
        {"counter": {"family": "inet", "name": "lan_rx_bytes", "table": "netmeter", "packets": 3, "bytes": 77}},
        {"counter": {"name": "lan_tx_bytes", "bytes": 18446744073709551615}},
        {"counter": {"name": "lan_rx_pkts", "bytes": 5}}]}"#;
    assert_eq!(read_nft(json), Some((77, u64::MAX)));
    assert_eq!(lan_bytes(&parse_json(json).unwrap()), Some((77, u64::MAX)));
}

#[test]
fn the_last_counter_counts_and_missing_bytes_are_zero() {
    let json = br#"{"nftables": [{"counter": {"name": "lan_rx_bytes", "bytes": 1}},
        {"counter": {"name": "lan_rx_bytes"}}, {"counter": {"name": "lan_tx_bytes", "bytes": -4}}]}"#;
    assert_eq!(read_nft(json), Some((0, 0)));
}

#[test]
fn no_local_counters() {
    assert_eq!(read_nft(b"not json"), None);
    assert_eq!(read_nft(b"{}"), None);
    assert_eq!(read_nft(b"[]"), None);
    assert_eq!(read_nft(br#"{"nftables": [{"counter": {"name": "lan_rx_bytes", "bytes": 1}}]}"#), None);
    assert_eq!(read_nft(br#"{"nftables": {"counter": {"name": "lan_rx_bytes"}}}"#), None);
}

#[test]
fn rules_of_both_families() {
    let nets: Vec<String> = ["10.0.0.0/8", "fe80::/10", "192.168.0.0/16", "fc00::/7"]
        .iter()
        .map(|s| s.to_string())
        .collect();
    let want = "table inet netmeter {
    set lan4 { type ipv4_addr; flags interval; elements = { 10.0.0.0/8, 192.168.0.0/16 } }
    set lan6 { type ipv6_addr; flags interval; elements = { fe80::/10, fc00::/7 } }
    counter lan_rx_bytes { }
    counter lan_tx_bytes { }
    counter lan_rx_pkts { }
    counter lan_tx_pkts { }
    chain acct_in { type filter hook input priority filter; policy accept;
        ip saddr @lan4 counter name lan_rx_bytes accept
        ip6 saddr @lan6 counter name lan_rx_bytes accept
    }
    chain acct_out { type filter hook output priority filter; policy accept;
        ip daddr @lan4 counter name lan_tx_bytes accept
        ip6 daddr @lan6 counter name lan_tx_bytes accept
    }
}
";
    assert_eq!(render_ruleset(&nets), want);
}

#[test]
fn rules_without_networks() {
    let text = render_ruleset(&[]);
    assert!(text.contains("set lan4 { type ipv4_addr; flags interval; elements = { 10.0.0.0/8 } }"));
    assert!(text.contains("set lan6 { type ipv6_addr; flags interval; elements = { fe80::/10 } }"));
}
