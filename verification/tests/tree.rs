use netmeter::tree::{
    get, get2, items_in, merge, parse_json, parse_toml, put, signed_in, text_in, unsigned_in,
    Node,
};

#[test]
fn json_values() {
    let v = parse_json(br#"{"a": null, "b": true, "n": -3, "u": 18446744073709551615, "f": 1.5, "s": "x", "l": [1, "y"], "o": {"k": 7}}"#).unwrap();
    assert!(matches!(get(&v, "a"), Some(Node::Null)));
    assert!(matches!(get(&v, "b"), Some(Node::Bool(true))));
    assert_eq!((unsigned_in(get(&v, "n")), signed_in(get(&v, "n"))), (None, Some(-3)));
    assert_eq!((unsigned_in(get(&v, "u")), signed_in(get(&v, "u"))), (Some(u64::MAX), None));
    assert_eq!((unsigned_in(get(&v, "f")), signed_in(get(&v, "f"))), (None, None));
    assert_eq!(text_in(get(&v, "s")).unwrap(), "x");
    assert_eq!(items_in(get(&v, "l")).unwrap().len(), 2);
    assert_eq!(signed_in(get2(&v, "o", "k")), Some(7));
    assert!(get(&v, "zz").is_none() && get2(&v, "s", "k").is_none());
    assert!(text_in(get(&v, "n")).is_none());
    assert!(items_in(get(&v, "s")).is_none());
    assert!(parse_json(b"{").is_none());
}

#[test]
fn toml_values() {
    let v = parse_toml("s = \"x\"\nn = -3\nf = 1.5\nb = false\nd = 2026-09-06\nl = [1]\n[t]\nk = 1\n").unwrap();
    assert_eq!(text_in(get(&v, "s")).unwrap(), "x");
    assert_eq!((unsigned_in(get(&v, "n")), signed_in(get(&v, "n"))), (None, Some(-3)));
    assert!(matches!(get(&v, "f"), Some(Node::Float(b)) if *b == 1.5f64.to_bits()));
    assert!(matches!(get(&v, "b"), Some(Node::Bool(false))));
    assert!(matches!(get(&v, "d"), Some(Node::Moment(s)) if s == "2026-09-06"));
    assert_eq!(items_in(get(&v, "l")).unwrap().len(), 1);
    assert_eq!(unsigned_in(get2(&v, "t", "k")), Some(1));
    assert!(parse_toml("= 1").is_none());
}

#[test]
fn tables_hold_each_name_once() {
    let mut pairs = Vec::new();
    put(&mut pairs, "a".into(), Node::Bool(true));
    put(&mut pairs, "b".into(), Node::Null);
    put(&mut pairs, "a".into(), Node::Bool(false));
    assert_eq!(pairs.len(), 2);
    assert!(matches!(pairs[0].1, Node::Bool(false)));
}

#[test]
fn merging_twice_is_merging_once() {
    let base = || parse_toml("a = 1\nb = 1\n").unwrap();
    let over = || parse_toml("b = 2\nc = 2\n").unwrap();
    let once = merge(base(), over());
    let twice = merge(merge(base(), over()), over());
    for k in ["a", "b", "c", "d"] {
        assert_eq!(signed_in(get(&once, k)), signed_in(get(&twice, k)));
    }
}
