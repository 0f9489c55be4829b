use netmeter::daemon::AppBytes;
use netmeter::proc_cap::{
    account, eligible, flush_due, fold, inode_to_pid, l4_ports, parse_local, process_number,
    read_flow, receiver_wait, snapshot, snapshot_due, socket_inode, Cum, Endpoint, Ip, Owners, Process,
    SocketTable,
};
use std::collections::HashMap;

#[test]
fn parses_proc_v4() {
    let (ip, port) = parse_local("0100007F:0035", false).unwrap();
    assert_eq!(ip, Ip::v4(127, 0, 0, 1));
    assert_eq!(port, 53);
}

#[test]
fn parses_proc_v6_loopback() {
    let (ip, port) = parse_local("00000000000000000000000001000000:01BB", true).unwrap();
    assert_eq!(ip, Ip::V6(1));
    assert_eq!(port, 443);
}

#[test]
fn snapshot_builds() {
    let table = "  sl  local_address rem_address   st tx_queue rx_queue tr tm->when retrnsmt   uid  timeout inode\n".to_string();
    let o = snapshot(&vec![SocketTable { text: table, v6: false }], &HashMap::new());
    let _ = (o.by_ep.len(), o.comm.len());
}

#[test]
fn account_counts_frame_bytes() {
    // synthetic Ethernet/IPv4/TCP frame, unknown owner → unknown bucket
    let mut f = vec![0u8; 14 + 20 + 20];
    f[12] = 0x08;
    f[13] = 0x00; // IPv4 ethertype
    f[14] = 0x45; // version+IHL
    f[23] = 6; // TCP
    f[14 + 12..14 + 16].copy_from_slice(&[1, 2, 3, 4]);
    f[14 + 16..14 + 20].copy_from_slice(&[5, 6, 7, 8]);
    let owners = Owners { by_ep: Vec::new(), comm: HashMap::new() };
    let mut cum = Cum::new();
    account(&f, &owners, &[], &mut cum);
    let rx = cum.get(&0).map(|(_, rx, _)| *rx).unwrap_or(0);
    assert_eq!(rx, f.len() as u64);
}

#[test]
fn local_ends_that_are_none() {
    assert_eq!(parse_local("0100007F", false), None);
    assert_eq!(parse_local("0100007F:", false), None);
    assert_eq!(parse_local("0100007G:0035", false), None);
    assert_eq!(parse_local("1FFFFFFFF:0035", false), None);
    assert_eq!(parse_local("0100007F:10000", false), None);
    assert_eq!(parse_local("0100007F:0035", true), None);
    assert_eq!(parse_local("0000000000000000000000000100000é:01BB", true), None);
    assert_eq!(
        parse_local("B80D0120000000000000000001000000:0050", true),
        Some((Ip::V6(0x2001_0db8_0000_0000_0000_0000_0000_0001), 80))
    );
}

#[test]
fn socket_links() {
    assert_eq!(socket_inode("socket:[12345]"), Some(12345));
    assert_eq!(socket_inode("socket:[12345"), None);
    assert_eq!(socket_inode("pipe:[12345]"), None);
    assert_eq!(socket_inode("socket:[]"), None);
    assert_eq!(process_number("4711"), Some(4711));
    assert_eq!(process_number("self"), None);
    assert_eq!(process_number("4294967296"), None);
}

fn sample_owners() -> Owners {
    let processes = vec![
        Process {
            pid: 10,
            comm: "curl\n".into(),
            links: vec!["/dev/null".into(), "socket:[100]".into()],
        },
        Process { pid: 11, comm: "nc\n".into(), links: vec!["socket:[100]".into(), "socket:[101]".into()] },
    ];
    let map = inode_to_pid(&processes);
    assert_eq!(map.get(&100), Some(&(10, "curl".to_string())));
    assert_eq!(map.get(&101), Some(&(11, "nc".to_string())));
    let text = "heading\n   0: 04030201:1F90 00000000:0000 0A 0 0 0 0 0 100 1\n   1: 04030201:0016 00000000:0000 0A 0 0 0 0 0 101 1\n   2: 04030201:0017 00000000:0000 0A 0 0 0 0 0 0 1\n   3: 04030201:0018 00000000:0000 0A 0 0 0 0 0 999 1\n short line\n";
    snapshot(&vec![SocketTable { text: text.into(), v6: false }], &map)
}

#[test]
fn snapshot_finds_owners() {
    let o = sample_owners();
    assert_eq!(o.by_ep.len(), 2);
    let e: &Endpoint = &o.by_ep[0];
    assert_eq!((e.ip, e.port, e.pid), (Ip::v4(1, 2, 3, 4), 8080, 10));
    assert_eq!(o.comm.get(&10), Some(&"curl".to_string()));
    assert_eq!(o.comm.get(&11), Some(&"nc".to_string()));
}

fn tcp_frame(src: [u8; 4], sp: u16, dst: [u8; 4], dp: u16) -> Vec<u8> {
    let mut f = vec![0u8; 14 + 20 + 20];
    f[12] = 0x08;
    f[14] = 0x45;
    f[14 + 3] = 40; // total length
    f[23] = 6;
    f[26..30].copy_from_slice(&src);
    f[30..34].copy_from_slice(&dst);
    f[34..36].copy_from_slice(&sp.to_be_bytes());
    f[36..38].copy_from_slice(&dp.to_be_bytes());
    f
}

#[test]
fn frames_are_laid_to_their_programs() {
    let o = sample_owners();
    let local = [Ip::v4(1, 2, 3, 4)];
    let mut cum = Cum::new();
    let up = tcp_frame([1, 2, 3, 4], 8080, [9, 9, 9, 9], 443);
    let down = tcp_frame([9, 9, 9, 9], 443, [1, 2, 3, 4], 8080);
    let stray = tcp_frame([9, 9, 9, 9], 443, [1, 2, 3, 4], 9999);
    assert!(account(&up, &o, &local, &mut cum));
    assert!(account(&down, &o, &local, &mut cum));
    assert!(account(&down, &o, &local, &mut cum));
    assert!(account(&stray, &o, &local, &mut cum));
    assert_eq!(cum.get(&10), Some(&("curl".to_string(), 108, 54)));
    assert_eq!(cum.get(&0), Some(&("unknown".to_string(), 54, 0)));
}

#[test]
fn frames_without_ports_are_other() {
    let o = Owners::new();
    let mut f = tcp_frame([9, 9, 9, 9], 1, [1, 2, 3, 4], 2);
    f[23] = 1; // ICMP
    let mut cum = Cum::new();
    account(&f, &o, &[], &mut cum);
    assert_eq!(cum.get(&0), Some(&("other".to_string(), 54, 0)));
    // the name follows the last frame while it is not known
    let g = tcp_frame([9, 9, 9, 9], 1, [1, 2, 3, 4], 2);
    account(&g, &o, &[], &mut cum);
    assert_eq!(cum.get(&0), Some(&("unknown".to_string(), 108, 0)));
}

#[test]
fn frames_that_count_for_nothing() {
    let o = Owners::new();
    let mut cum = Cum::new();
    assert!(account(&[0u8; 13], &o, &[], &mut cum));
    assert!(account(&[0u8; 60], &o, &[], &mut cum));
    let mut short = vec![0u8; 14 + 19];
    short[12] = 0x08;
    assert!(account(&short, &o, &[], &mut cum));
    let mut short6 = vec![0u8; 14 + 39];
    short6[12] = 0x86;
    short6[13] = 0xdd;
    assert!(account(&short6, &o, &[], &mut cum));
    assert!(cum.is_empty());
}

#[test]
fn flows_of_both_families() {
    let f = read_flow(&tcp_frame([1, 2, 3, 4], 8080, [9, 8, 7, 6], 443)).unwrap();
    assert_eq!(f.source, Ip::v4(1, 2, 3, 4));
    assert_eq!(f.destination, Ip::v4(9, 8, 7, 6));
    assert_eq!(f.ports, Some((8080, 443)));

    let mut g = vec![0u8; 14 + 40 + 8];
    g[12] = 0x86;
    g[13] = 0xdd;
    g[14] = 0x60;
    g[14 + 5] = 8; // payload length
    g[14 + 6] = 17; // UDP
    g[14 + 8 + 15] = 1; // ::1
    g[14 + 24] = 0xfe;
    g[14 + 25] = 0x80; // fe80::2
    g[14 + 24 + 15] = 2;
    g[54] = 0x12;
    g[55] = 0x34;
    g[57] = 53;
    let f = read_flow(&g).unwrap();
    assert_eq!(f.source, Ip::V6(1));
    assert_eq!(f.destination, Ip::V6(0xfe80_0000_0000_0000_0000_0000_0000_0002));
    assert_eq!(f.ports, Some((0x1234, 53)));
    g[14 + 5] = 7; // a datagram cut short has no ports
    assert_eq!(read_flow(&g).unwrap().ports, None);
}

#[test]
fn header_lengths_count() {
    // 24 bytes of header: the ports stand four bytes further on
    let mut f = vec![0u8; 14 + 24 + 8];
    f[12] = 0x08;
    f[14] = 0x46;
    f[14 + 3] = 32;
    f[23] = 17;
    f[14 + 24 + 1] = 7;
    f[14 + 24 + 3] = 9;
    assert_eq!(read_flow(&f).unwrap().ports, Some((7, 9)));
    // a header length below five counts as twenty bytes of header
    let mut g = vec![0u8; 14 + 20 + 8];
    g[12] = 0x08;
    g[14] = 0x41;
    g[14 + 3] = 12;
    g[23] = 17;
    g[14 + 20 + 1] = 5;
    g[14 + 20 + 3] = 6;
    assert_eq!(read_flow(&g).unwrap().ports, Some((5, 6)));
}

#[test]
fn ports_by_protocol() {
    let l4 = [0u8, 80, 1, 187, 0, 0, 0, 0];
    assert_eq!(l4_ports(17, &l4), Some((80, 443)));
    assert_eq!(l4_ports(17, &l4[..7]), None);
    assert_eq!(l4_ports(6, &l4), None);
    let mut long = [0u8; 20];
    long[..4].copy_from_slice(&l4[..4]);
    assert_eq!(l4_ports(6, &long), Some((80, 443)));
    assert_eq!(l4_ports(1, &long), None);
}

#[test]
fn full_counts_refuse_a_frame() {
    let o = Owners::new();
    let mut cum = Cum::new();
    cum.insert(0, ("unknown".into(), u64::MAX - 53, 0));
    let f = tcp_frame([9, 9, 9, 9], 1, [1, 2, 3, 4], 2);
    assert!(!account(&f, &o, &[], &mut cum));
    assert_eq!(cum.get(&0).unwrap().1, u64::MAX - 53);
}

#[test]
fn folding_keeps_every_byte() {
    let app = |c: &str, rx, tx| AppBytes { comm: c.into(), rx, tx };
    let mut totals = vec![app("curl", 5, 6)];
    assert!(fold(&mut totals, vec![app("nc", 1, 2), app("curl", 10, 20), app("nc", 100, 200)]));
    assert_eq!(totals.len(), 2);
    assert_eq!((totals[0].comm.as_str(), totals[0].rx, totals[0].tx), ("curl", 15, 26));
    assert_eq!((totals[1].comm.as_str(), totals[1].rx, totals[1].tx), ("nc", 101, 202));
    assert!(!fold(&mut totals, vec![app("curl", u64::MAX, 0)]));
}

#[test]
fn recorder_decisions() {
    let exclude = vec!["lo".to_string(), "docker*".to_string()];
    assert!(eligible(&exclude, "eth0", true, false));
    assert!(!eligible(&exclude, "eth0", false, false));
    assert!(!eligible(&exclude, "eth0", true, true));
    assert!(!eligible(&exclude, "docker0", true, false));
    assert!(!snapshot_due(15, 0));
    assert!(snapshot_due(15, 1));
    assert!(!flush_due(1, 0, 5000));
    assert!(flush_due(1, 1, 0));
    assert!(flush_due(0, 0, 5001));
    assert_eq!(receiver_wait(0, false), Some(30));
    assert_eq!(receiver_wait(2, true), Some(5));
    assert_eq!(receiver_wait(0, true), Some(5));
    assert_eq!(receiver_wait(2, false), None);
}
