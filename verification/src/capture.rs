//! What the kernel counts: interface totals and the counters of local traffic.
use crate::text::{
    a_line_feed_ends_a_line, chars_of, decimal, fields, find_char, join, joined,
    joined_holds_every_part, joined_parts_come_apart, lines, numbers_are_read_back, offset_of,
    parse_unsigned, pieces, place_of, place_of_is_first, same_text, slices, split_fields,
    split_lines, text_of, texts, trim, trimmed, unsigned_value,
};
use crate::tree::{
    as_items, as_text, as_unsigned, field, get, item_trees, items_in, json_document, parse_json,
    text_in, tree, unsigned_in, Node, Tree,
};
use vstd::prelude::*;
use vstd::slice::slice_subrange;
use vstd::string::*;

verus! {

// ---- interface totals ----

/// The bytes that an interface has received and sent.
pub struct Counter {
    pub iface: String,
    pub rx: u64,
    pub tx: u64,
}

/// Counters by the name of the interface; of two with one name the later one counts.
pub open spec fn counter_map(v: Seq<Counter>) -> Map<Seq<char>, (u64, u64)>
    decreases v.len(),
{
    if v.len() == 0 {
        Map::empty()
    } else {
        counter_map(v.drop_last()).insert(v.last().iface@, (v.last().rx, v.last().tx))
    }
}

/// Whether no two counters have one name.
pub open spec fn distinct(v: Seq<Counter>) -> bool {
    forall|i: int, j: int| 0 <= i < j < v.len() ==> v[i].iface@ != v[j].iface@
}

proof fn counter_map_update(v: Seq<Counter>, i: int, c: Counter)
    requires
        0 <= i < v.len(),
        c.iface@ == v[i].iface@,
        forall|j: int| i < j < v.len() ==> (#[trigger] v[j]).iface@ != v[i].iface@,
    ensures
        counter_map(v.update(i, c)) == counter_map(v).insert(c.iface@, (c.rx, c.tx)),
    decreases v.len(),
{
    let changed = v.update(i, c);
    if i == v.len() - 1 {
        assert(changed.drop_last() =~= v.drop_last());
        assert(counter_map(changed) =~= counter_map(v).insert(c.iface@, (c.rx, c.tx)));
    } else {
        counter_map_update(v.drop_last(), i, c);
        assert(changed.drop_last() =~= v.drop_last().update(i, c));
        assert(v[v.len() - 1].iface@ != v[i].iface@);
        assert(counter_map(changed) =~= counter_map(v).insert(c.iface@, (c.rx, c.tx)));
    }
}

/// Takes a counter in, in place of one with the same name.
pub fn put_counter(v: &mut Vec<Counter>, c: Counter)
    requires
        distinct(old(v)@),
    ensures
        counter_map(final(v)@) == counter_map(old(v)@).insert(c.iface@, (c.rx, c.tx)),
        distinct(final(v)@),
{
    let mut i: usize = v.len();
    while i > 0
        invariant
            i <= v.len(),
            v@ == old(v)@,
            distinct(v@),
            forall|j: int| i <= j < v.len() ==> (#[trigger] v@[j]).iface@ != c.iface@,
        decreases i,
    {
        i = i - 1;
        if same_text(v[i].iface.as_str(), c.iface.as_str()) {
            proof {
                counter_map_update(v@, i as int, c);
            }
            v.set(i, c);
            return;
        }
    }
    v.push(c);
    assert(v@.drop_last() =~= old(v)@);
}

/// A number of 64 bits, or zero where the text is none.
pub open spec fn number_or_zero(s: Seq<char>) -> u64 {
    match unsigned_value(s, 10, u64::MAX as int) {
        Some(n) => n as u64,
        None => 0,
    }
}

fn number(s: &[char]) -> (r: u64)
    ensures
        r == number_or_zero(s@),
{
    match parse_unsigned(s, 10, u64::MAX) {
        Some(n) => n,
        None => 0,
    }
}

/// What a line of `/proc/net/dev` tells: the name before the colon, and of the sixteen
/// or more numbers behind it the first, received, and the ninth, sent.
pub open spec fn line_counter(line: Seq<char>) -> Option<(Seq<char>, (u64, u64))> {
    let p = place_of(line, ':') as int;
    if p < line.len() {
        let rest = fields(line.skip(p + 1));
        if rest.len() >= 16 {
            Some((trimmed(line.take(p)), (number_or_zero(rest[0]), number_or_zero(rest[8]))))
        } else {
            None
        }
    } else {
        None
    }
}

/// What some lines tell.
pub open spec fn lines_counters(some: Seq<Seq<char>>) -> Map<Seq<char>, (u64, u64)>
    decreases some.len(),
{
    if some.len() == 0 {
        Map::empty()
    } else {
        let before = lines_counters(some.drop_last());
        match line_counter(some.last()) {
            Some(c) => before.insert(c.0, c.1),
            None => before,
        }
    }
}

/// What the text of `/proc/net/dev` tells: two lines of headings, then one line for each
/// interface.
pub open spec fn proc_counters(text: Seq<char>) -> Map<Seq<char>, (u64, u64)> {
    let all = lines(text);
    lines_counters(
        if all.len() > 2 {
            all.skip(2)
        } else {
            Seq::empty()
        },
    )
}

/// What a line of `/proc/net/dev` tells.
fn read_line(line: &[char]) -> (r: Option<Counter>)
    ensures
        r is Some <==> line_counter(line@) is Some,
        r matches Some(c) ==> line_counter(line@) == Some((c.iface@, (c.rx, c.tx))),
{
    let p = find_char(line, ':');
    if p >= line.len() {
        return None;
    }
    let tail = slice_subrange(line, p + 1, line.len());
    assert(tail@ =~= line@.skip(p + 1));
    let rest = split_fields(tail);
    if rest.len() < 16 {
        return None;
    }
    let head = slice_subrange(line, 0, p);
    assert(head@ =~= line@.take(p as int));
    assert(slices(rest@)[0] == rest@[0]@ && slices(rest@)[8] == rest@[8]@);
    Some(Counter { iface: text_of(trim(head)), rx: number(rest[0]), tx: number(rest[8]) })
}

/// The totals of all interfaces, from the text of `/proc/net/dev`.
pub fn read_proc(text: &str) -> (r: Vec<Counter>)
    ensures
        counter_map(r@) == proc_counters(text@),
        distinct(r@),
{
    let chars = chars_of(text);
    let all = split_lines(chars.as_slice());
    let mut r: Vec<Counter> = Vec::new();
    let ghost told = if lines(text@).len() > 2 {
        lines(text@).skip(2)
    } else {
        Seq::empty()
    };
    if all.len() <= 2 {
        return r;
    }
    let mut i: usize = 2;
    assert(told.take(0) =~= Seq::empty());
    while i < all.len()
        invariant
            2 <= i <= all.len(),
            slices(all@) == lines(text@),
            told == lines(text@).skip(2),
            counter_map(r@) == lines_counters(told.take(i - 2)),
            distinct(r@),
        decreases all.len() - i,
    {
        proof {
            assert(told.take(i - 1).drop_last() =~= told.take(i - 2));
            assert(told.take(i - 1).last() == slices(all@)[i as int]);
        }
        match read_line(all[i]) {
            Some(c) => {
                put_counter(&mut r, c);
            },
            None => {},
        }
        i = i + 1;
    }
    assert(told.take(all.len() - 2) =~= told);
    r
}

/// What the statistics files of an interface hold, as far as they can be read.
pub struct Statistics {
    pub iface: String,
    pub rx_bytes: Option<String>,
    pub tx_bytes: Option<String>,
}

/// The number in a file, or zero where it cannot be read or holds none.
pub open spec fn file_number(file: Option<String>) -> u64 {
    match file {
        Some(text) => number_or_zero(trimmed(text@)),
        None => 0,
    }
}

fn number_in(file: &Option<String>) -> (r: u64)
    ensures
        r == file_number(*file),
{
    match file {
        Some(text) => {
            let chars = chars_of(text.as_str());
            number(trim(chars.as_slice()))
        },
        None => 0,
    }
}

/// What the statistics files of some interfaces tell.
pub open spec fn statistics_counters(v: Seq<Statistics>) -> Map<Seq<char>, (u64, u64)>
    decreases v.len(),
{
    if v.len() == 0 {
        Map::empty()
    } else {
        statistics_counters(v.drop_last()).insert(
            v.last().iface@,
            (file_number(v.last().rx_bytes), file_number(v.last().tx_bytes)),
        )
    }
}

/// The totals of all interfaces, from their statistics files.
pub fn read_sysfs(v: &Vec<Statistics>) -> (r: Vec<Counter>)
    ensures
        counter_map(r@) == statistics_counters(v@),
        distinct(r@),
{
    let mut r: Vec<Counter> = Vec::new();
    let mut i: usize = 0;
    while i < v.len()
        invariant
            i <= v.len(),
            counter_map(r@) == statistics_counters(v@.take(i as int)),
            distinct(r@),
        decreases v.len() - i,
    {
        assert(v@.take(i + 1).drop_last() =~= v@.take(i as int));
        let s = &v[i];
        put_counter(
            &mut r,
            Counter {
                iface: s.iface.clone(),
                rx: number_in(&s.rx_bytes),
                tx: number_in(&s.tx_bytes),
            },
        );
        i = i + 1;
    }
    assert(v@.take(i as int) =~= v@);
    r
}

// ---- local traffic ----

/// The bytes of a counter in an item, where the item is a counter with this name.
pub open spec fn item_bytes(item: Tree, name: Seq<char>) -> Option<u64> {
    match field(item, "counter"@) {
        Some(c) => if as_text(field(c, "name"@)) == Some(name) {
            Some(
                match as_unsigned(field(c, "bytes"@)) {
                    Some(n) => n,
                    None => 0,
                },
            )
        } else {
            None
        },
        None => None,
    }
}

/// The bytes of the last counter with a name.
pub open spec fn counter_bytes(items: Seq<Tree>, name: Seq<char>) -> Option<u64>
    decreases items.len(),
{
    if items.len() == 0 {
        None
    } else {
        match item_bytes(items.last(), name) {
            Some(n) => Some(n),
            None => counter_bytes(items.drop_last(), name),
        }
    }
}

/// The local bytes received and sent that a listing of counters tells, where it has both.
pub open spec fn lan_counters(listing: Tree) -> Option<(u64, u64)> {
    let items = as_items(field(listing, "nftables"@));
    match (counter_bytes(items, "lan_rx_bytes"@), counter_bytes(items, "lan_tx_bytes"@)) {
        (Some(r), Some(t)) => Some((r, t)),
        _ => None,
    }
}

fn counter_in(item: &Node, name: &str) -> (r: Option<u64>)
    ensures
        r == item_bytes(tree(*item), name@),
{
    match get(item, "counter") {
        Some(c) => match text_in(get(c, "name")) {
            Some(n) if same_text(n.as_str(), name) => match unsigned_in(get(c, "bytes")) {
                Some(b) => Some(b),
                None => Some(0),
            },
            _ => None,
        },
        None => None,
    }
}

fn last_counter(items: &Vec<Node>, name: &str) -> (r: Option<u64>)
    ensures
        r == counter_bytes(item_trees(items@), name@),
{
    let ghost all = item_trees(items@);
    let mut i: usize = items.len();
    assert(all.take(all.len() as int) =~= all);
    while i > 0
        invariant
            i <= items.len(),
            all == item_trees(items@),
            counter_bytes(all, name@) == counter_bytes(all.take(i as int), name@),
        decreases i,
    {
        assert(all.take(i as int).last() == all[i - 1]);
        assert(all.take(i as int).drop_last() =~= all.take(i - 1));
        i = i - 1;
        match counter_in(&items[i], name) {
            Some(n) => {
                return Some(n);
            },
            None => {},
        }
    }
    None
}

/// The local bytes received and sent that a listing of counters tells.
pub fn lan_bytes(listing: &Node) -> (r: Option<(u64, u64)>)
    ensures
        r == lan_counters(tree(*listing)),
{
    match items_in(get(listing, "nftables")) {
        Some(items) => match (
            last_counter(items, "lan_rx_bytes"),
            last_counter(items, "lan_tx_bytes"),
        ) {
            (Some(r), Some(t)) => Some((r, t)),
            _ => None,
        },
        None => None,
    }
}

/// The local bytes received and sent, from what `nft --json list counters` prints.
pub fn read_nft(output: &[u8]) -> (r: Option<(u64, u64)>)
    ensures
        r == match json_document(output@) {
            Some(listing) => lan_counters(listing),
            None => None,
        },
{
    match parse_json(output) {
        Some(v) => lan_bytes(&v),
        None => None,
    }
}

// ---- the accounting rules ----

/// Whether a text holds a character.
pub open spec fn holds(s: Seq<char>, c: char) -> bool {
    place_of(s, c) < s.len()
}

/// The networks of one family: those of IPv6 hold a colon.
pub open spec fn family(subnets: Seq<Seq<char>>, v6: bool) -> Seq<Seq<char>>
    decreases subnets.len(),
{
    if subnets.len() == 0 {
        Seq::empty()
    } else {
        let before = family(subnets.drop_last(), v6);
        if holds(subnets.last(), ':') == v6 {
            before.push(subnets.last())
        } else {
            before
        }
    }
}

/// The elements of a set of networks: those of the family with commas between them, or
/// one that stands for none.
pub open spec fn set_elements(subnets: Seq<Seq<char>>, v6: bool) -> Seq<char> {
    let part = family(subnets, v6);
    if part.len() == 0 {
        if v6 {
            "fe80::/10"@
        } else {
            "10.0.0.0/8"@
        }
    } else {
        joined(part, ", "@)
    }
}

/// The rules that count local traffic: an own table with the local networks in two sets,
/// and counters for what comes from them and what goes to them.
pub open spec fn ruleset(subnets: Seq<Seq<char>>) -> Seq<char> {
    "table inet netmeter {\n    set lan4 { type ipv4_addr; flags interval; elements = { "@
        + set_elements(subnets, false)
        + " } }\n    set lan6 { type ipv6_addr; flags interval; elements = { "@
        + set_elements(subnets, true)
        + " } }\n    counter lan_rx_bytes { }\n    counter lan_tx_bytes { }\n    counter lan_rx_pkts { }\n    counter lan_tx_pkts { }\n    chain acct_in { type filter hook input priority filter; policy accept;\n        ip saddr @lan4 counter name lan_rx_bytes accept\n        ip6 saddr @lan6 counter name lan_rx_bytes accept\n    }\n    chain acct_out { type filter hook output priority filter; policy accept;\n        ip daddr @lan4 counter name lan_tx_bytes accept\n        ip6 daddr @lan6 counter name lan_tx_bytes accept\n    }\n}\n"@
}

fn elements(subnets: &[String], v6: bool) -> (r: String)
    ensures
        r@ == set_elements(texts(subnets@), v6),
{
    let mut part: Vec<String> = Vec::new();
    let ghost all = texts(subnets@);
    let mut i: usize = 0;
    assert(texts(part@) =~= family(all.take(0), v6));
    while i < subnets.len()
        invariant
            i <= subnets.len(),
            all == texts(subnets@),
            texts(part@) == family(all.take(i as int), v6),
        decreases subnets.len() - i,
    {
        assert(all.take(i + 1).drop_last() =~= all.take(i as int));
        let s = &subnets[i];
        let chars = chars_of(s.as_str());
        let ghost had = part@;
        if (find_char(chars.as_slice(), ':') < chars.len()) == v6 {
            part.push(s.clone());
            assert(texts(part@) =~= texts(had).push(s@));
        }
        i = i + 1;
    }
    assert(all.take(i as int) =~= all);
    assert(texts(part@).len() == part@.len());
    if part.len() == 0 {
        if v6 {
            "fe80::/10".to_owned()
        } else {
            "10.0.0.0/8".to_owned()
        }
    } else {
        join(part.as_slice(), ", ")
    }
}

/// The rules that count local traffic, as `nft` reads them.
pub fn render_ruleset(lan_subnets: &[String]) -> (r: String)
    ensures
        r@ == ruleset(texts(lan_subnets@)),
{
    let mut r = String::new();
    r.append("table inet netmeter {\n    set lan4 { type ipv4_addr; flags interval; elements = { ");
    r.append(elements(lan_subnets, false).as_str());
    r.append(" } }\n    set lan6 { type ipv6_addr; flags interval; elements = { ");
    r.append(elements(lan_subnets, true).as_str());
    r.append(
        " } }\n    counter lan_rx_bytes { }\n    counter lan_tx_bytes { }\n    counter lan_rx_pkts { }\n    counter lan_tx_pkts { }\n    chain acct_in { type filter hook input priority filter; policy accept;\n        ip saddr @lan4 counter name lan_rx_bytes accept\n        ip6 saddr @lan6 counter name lan_rx_bytes accept\n    }\n    chain acct_out { type filter hook output priority filter; policy accept;\n        ip daddr @lan4 counter name lan_tx_bytes accept\n        ip6 daddr @lan6 counter name lan_tx_bytes accept\n    }\n}\n",
    );
    assert(r@ =~= ruleset(texts(lan_subnets@)));
    r
}

/// Every network in the configuration stands in one of the two families, and in the one
/// of its kind only.
pub proof fn each_subnet_in_its_family(subnets: Seq<Seq<char>>, s: Seq<char>)
    requires
        subnets.contains(s),
    ensures
        family(subnets, holds(s, ':')).contains(s),
        !family(subnets, !holds(s, ':')).contains(s),
    decreases subnets.len(),
{
    let v6 = holds(s, ':');
    let fewer = subnets.drop_last();
    let (mine, other) = (family(subnets, v6), family(subnets, !v6));
    let i = choose|i: int| 0 <= i < subnets.len() && subnets[i] == s;
    if fewer.contains(s) {
        each_subnet_in_its_family(fewer, s);
        let k = choose|k: int| 0 <= k < family(fewer, v6).len() && family(fewer, v6)[k] == s;
        assert(mine[k] == s);
        if other.contains(s) {
            let j = choose|j: int| 0 <= j < other.len() && other[j] == s;
            if j < family(fewer, !v6).len() {
                assert(family(fewer, !v6)[j] == s);
            }
        }
    } else {
        if i < fewer.len() {
            assert(fewer[i] == s);
        }
        assert(mine[mine.len() - 1] == s);
        family_members(fewer, !v6, s);
    }
}

proof fn family_members(subnets: Seq<Seq<char>>, v6: bool, s: Seq<char>)
    requires
        !subnets.contains(s),
    ensures
        !family(subnets, v6).contains(s),
    decreases subnets.len(),
{
    if subnets.len() > 0 {
        let fewer = subnets.drop_last();
        if fewer.contains(s) {
            let k = choose|k: int| 0 <= k < fewer.len() && fewer[k] == s;
            assert(subnets[k] == s);
        }
        family_members(fewer, v6, s);
        let part = family(subnets, v6);
        if part.contains(s) {
            let k = choose|k: int| 0 <= k < part.len() && part[k] == s;
            if k < family(fewer, v6).len() {
                assert(family(fewer, v6)[k] == s);
            } else {
                assert(subnets[subnets.len() - 1] == s);
            }
        }
    }
}

proof fn family_is_a_filter(subnets: Seq<Seq<char>>, v6: bool)
    ensures
        family(subnets, v6) == subnets.filter(|s: Seq<char>| s.contains(':') == v6),
    decreases subnets.len(),
{
    reveal(Seq::filter);
    if subnets.len() > 0 {
        let last = subnets.last();
        family_is_a_filter(subnets.drop_last(), v6);
        place_of_is_first(last, ':');
        if last.contains(':') {
            let i = choose|i: int| 0 <= i < last.len() && last[i] == ':';
            assert(holds(last, ':'));
        }
        if holds(last, ':') {
            assert(last[place_of(last, ':') as int] == ':');
        }
    }
}

proof fn commas_with_blanks(parts: Seq<Seq<char>>)
    requires
        parts.len() > 0,
    ensures
        joined(parts, ", "@) == joined(behind_blanks(parts), seq![',']),
    decreases parts.len(),
{
    reveal_strlit(", ");
    let q = behind_blanks(parts);
    if parts.len() > 1 {
        commas_with_blanks(parts.drop_last());
        assert(q.drop_last() =~= behind_blanks(parts.drop_last()));
        assert(", "@ =~= seq![','] + seq![' ']);
        assert(q.last() == seq![' '] + parts.last());
        assert(joined(parts, ", "@) =~= joined(q, seq![',']));
    }
}

/// Some texts, all but the first with a blank in front.
pub open spec fn behind_blanks(parts: Seq<Seq<char>>) -> Seq<Seq<char>> {
    Seq::new(
        parts.len(),
        |i: int|
            if i == 0 {
                parts[0]
            } else {
                seq![' '] + parts[i]
            },
    )
}

/// Every network of the configuration is an element of the set of its family: the elements,
/// taken apart at the commas, are all the networks with a colon or all those without one,
/// in order and none left out, however many there are.
pub proof fn every_subnet_is_an_element(subnets: Seq<Seq<char>>, v6: bool)
    requires
        forall|i: int| 0 <= i < subnets.len() ==> !(#[trigger] subnets[i]).contains(','),
        subnets.filter(|s: Seq<char>| s.contains(':') == v6).len() > 0,
    ensures
        ({
            let nets = subnets.filter(|s: Seq<char>| s.contains(':') == v6);
            let found = pieces(set_elements(subnets, v6), ',');
            &&& found.len() == nets.len()
            &&& found[0] == nets[0]
            &&& forall|i: int| 0 < i < nets.len() ==> #[trigger] found[i] == seq![' '] + nets[i]
        }),
{
    let nets = subnets.filter(|s: Seq<char>| s.contains(':') == v6);
    family_is_a_filter(subnets, v6);
    commas_with_blanks(nets);
    let q = behind_blanks(nets);
    assert forall|i: int| 0 <= i < q.len() implies !(#[trigger] q[i]).contains(',') by {
        if family(subnets, v6).contains(nets[i]) && !subnets.contains(nets[i]) {
            family_members(subnets, v6, nets[i]);
        }
        assert(family(subnets, v6).contains(nets[i]));
        let k = choose|k: int| 0 <= k < subnets.len() && subnets[k] == nets[i];
        assert(!subnets[k].contains(','));
        if q[i].contains(',') {
            let w = choose|w: int| 0 <= w < q[i].len() && q[i][w] == ',';
            if i == 0 {
                assert(nets[0][w] == ',');
            } else {
                assert(nets[i][w - 1] == ',');
            }
        }
    }
    joined_parts_come_apart(q, ',');
}

/// Every network stands in the elements of its set, whatever it holds, in order, with a
/// comma and a blank between neighbours and nothing else.
pub proof fn networks_stand_in_their_set(subnets: Seq<Seq<char>>, v6: bool, i: int)
    requires
        0 <= i < subnets.filter(|s: Seq<char>| s.contains(':') == v6).len(),
    ensures
        ({
            let nets = subnets.filter(|s: Seq<char>| s.contains(':') == v6);
            let text = set_elements(subnets, v6);
            let at = offset_of(nets, 2, i);
            &&& 0 <= at <= at + nets[i].len() <= text.len()
            &&& text.subrange(at, at + nets[i].len()) == nets[i]
            &&& text.len() + 2 == offset_of(nets, 2, nets.len() as int)
        }),
{
    reveal_strlit(", ");
    family_is_a_filter(subnets, v6);
    joined_holds_every_part(
        subnets.filter(|s: Seq<char>| s.contains(':') == v6),
        ", "@,
        i,
    );
}

/// The rules for one list of networks differ from those for another in the elements of the
/// two sets and in nothing else: those without a colon in the first one, those with a colon
/// in the second.
pub proof fn rules_differ_in_their_networks(a: Seq<Seq<char>>, b: Seq<Seq<char>>)
    ensures
        exists|head: Seq<char>, middle: Seq<char>, tail: Seq<char>|
            #![trigger head + middle + tail]
            ruleset(a) == head + set_elements(a, false) + middle + set_elements(a, true) + tail
                && ruleset(b) == head + set_elements(b, false) + middle + set_elements(b, true)
                + tail,
{
    let head =
        "table inet netmeter {\n    set lan4 { type ipv4_addr; flags interval; elements = { "@;
    let middle = " } }\n    set lan6 { type ipv6_addr; flags interval; elements = { "@;
    let e = ruleset(a);
    let start = head + set_elements(a, false) + middle + set_elements(a, true);
    let tail = e.skip(start.len() as int);
    assert(e =~= start + tail);
    let other = head + set_elements(b, false) + middle + set_elements(b, true);
    assert(ruleset(b).skip(other.len() as int) =~= tail);
    assert(ruleset(b) =~= other + tail);
    assert(head + middle + tail == head + middle + tail);
}

// ---- every counter is read ----

/// A line with a name, a colon and at least sixteen fields tells of that name the first and
/// the ninth number.
pub proof fn a_line_tells_its_counters(name: Seq<char>, numbers: Seq<char>)
    requires
        !name.contains(':'),
        fields(numbers).len() >= 16,
    ensures
        line_counter(name + seq![':'] + numbers) == Some(
            (
                trimmed(name),
                (number_or_zero(fields(numbers)[0]), number_or_zero(fields(numbers)[8])),
            ),
        ),
{
    let line = name + seq![':'] + numbers;
    place_of_is_first(line, ':');
    let p = place_of(line, ':') as int;
    if p < name.len() {
        assert(name.contains(name[p]));
    }
    if p > name.len() {
        assert(line[name.len() as int] == ':');
    }
    assert(line.take(p) =~= name);
    assert(line.skip(p + 1) =~= numbers);
}

/// A number in decimal digits counts as that number, and what is none as zero.
pub proof fn counts_are_read_as_written(n: u64)
    ensures
        number_or_zero(decimal(n as nat)) == n,
        number_or_zero(Seq::empty()) == 0,
{
    numbers_are_read_back(n as nat, u64::MAX as int);
}

/// The name that a line tells of, where it tells anything.
pub open spec fn line_name(line: Seq<char>) -> Option<Seq<char>> {
    match line_counter(line) {
        Some((name, _)) => Some(name),
        None => None,
    }
}

/// The counters of every line are known, those of the last one where lines share a name,
/// whatever lines follow.
pub proof fn every_line_is_known(
    some: Seq<Seq<char>>,
    k: int,
    name: Seq<char>,
    bytes: (u64, u64),
)
    requires
        0 <= k < some.len(),
        line_counter(some[k]) == Some((name, bytes)),
        forall|j: int| k < j < some.len() ==> line_name(#[trigger] some[j]) != Some(name),
    ensures
        lines_counters(some).contains_key(name),
        lines_counters(some)[name] == bytes,
    decreases some.len(),
{
    let fewer = some.drop_last();
    if k < some.len() - 1 {
        assert(fewer[k] == some[k]);
        assert forall|j: int| k < j < fewer.len() implies line_name(#[trigger] fewer[j]) != Some(
            name,
        ) by {
            assert(fewer[j] == some[j]);
        }
        every_line_is_known(fewer, k, name, bytes);
        assert(line_name(some[some.len() - 1]) != Some(name));
    }
}

/// Only counters of lines are known.
pub proof fn only_lines_are_known(some: Seq<Seq<char>>, name: Seq<char>)
    requires
        lines_counters(some).contains_key(name),
    ensures
        exists|k: int|
            0 <= k < some.len() && line_counter(#[trigger] some[k]) == Some(
                (name, lines_counters(some)[name]),
            ),
    decreases some.len(),
{
    if some.len() > 0 {
        let fewer = some.drop_last();
        let last = some.len() - 1;
        if line_name(some[last]) == Some(name) {
            assert(line_counter(some[last]) == Some((name, lines_counters(some)[name])));
        } else {
            only_lines_are_known(fewer, name);
            let k = choose|k: int|
                0 <= k < fewer.len() && line_counter(#[trigger] fewer[k]) == Some(
                    (name, lines_counters(fewer)[name]),
                );
            assert(some[k] == fewer[k]);
        }
    }
}

/// The two lines of headings count for nothing, and every line below them is told.
pub proof fn headings_are_left_out(first: Seq<char>, second: Seq<char>, body: Seq<char>)
    requires
        !first.contains('\n'),
        !second.contains('\n'),
    ensures
        proc_counters(first + seq!['\n'] + (second + seq!['\n'] + body)) == lines_counters(
            lines(body),
        ),
{
    let rest = second + seq!['\n'] + body;
    a_line_feed_ends_a_line(first, rest);
    a_line_feed_ends_a_line(second, body);
    let all = lines(first + seq!['\n'] + rest);
    assert(all.len() == 2 + lines(body).len());
    if lines(body).len() > 0 {
        assert(all.skip(2) =~= lines(body));
    } else {
        assert(lines(body) =~= Seq::empty());
    }
}

/// The counters of every interface with statistics files are known, received ones from the
/// one file and sent ones from the other.
pub proof fn every_file_is_known(v: Seq<Statistics>, k: int)
    requires
        0 <= k < v.len(),
        forall|j: int| k < j < v.len() ==> (#[trigger] v[j]).iface@ != v[k].iface@,
    ensures
        statistics_counters(v).contains_key(v[k].iface@),
        statistics_counters(v)[v[k].iface@] == (
            file_number(v[k].rx_bytes),
            file_number(v[k].tx_bytes),
        ),
    decreases v.len(),
{
    let fewer = v.drop_last();
    if k < v.len() - 1 {
        assert(v[v.len() - 1].iface@ != v[k].iface@);
        assert(fewer[k] == v[k]);
        assert forall|j: int| k < j < fewer.len() implies (#[trigger] fewer[j]).iface@
            != fewer[k].iface@ by {
            assert(v[j].iface@ != v[k].iface@);
        }
        every_file_is_known(fewer, k);
    }
}

/// Counters with names of their own are found under them, and no other name is.
pub proof fn counters_are_found_by_name(v: Seq<Counter>, k: int)
    requires
        0 <= k < v.len(),
        distinct(v),
    ensures
        counter_map(v).contains_key(v[k].iface@),
        counter_map(v)[v[k].iface@] == (v[k].rx, v[k].tx),
        forall|name: Seq<char>|
            counter_map(v).contains_key(name) ==> exists|i: int|
                0 <= i < v.len() && (#[trigger] v[i]).iface@ == name,
    decreases v.len(),
{
    let fewer = v.drop_last();
    assert forall|i: int, j: int| 0 <= i < j < fewer.len() implies fewer[i].iface@
        != fewer[j].iface@ by {
        assert(v[i].iface@ != v[j].iface@);
    }
    if k < v.len() - 1 {
        assert(v[k].iface@ != v[v.len() - 1].iface@);
        assert(fewer[k] == v[k]);
        counters_are_found_by_name(fewer, k);
    }
    assert forall|name: Seq<char>| counter_map(v).contains_key(name) implies exists|i: int|
        0 <= i < v.len() && (#[trigger] v[i]).iface@ == name by {
        names_are_of_counters(v, name);
    }
}

proof fn names_are_of_counters(v: Seq<Counter>, name: Seq<char>)
    requires
        counter_map(v).contains_key(name),
    ensures
        exists|i: int| 0 <= i < v.len() && (#[trigger] v[i]).iface@ == name,
    decreases v.len(),
{
    if v.len() > 0 {
        let fewer = v.drop_last();
        if v[v.len() - 1].iface@ != name {
            names_are_of_counters(fewer, name);
            let i = choose|i: int| 0 <= i < fewer.len() && (#[trigger] fewer[i]).iface@ == name;
            assert(v[i].iface@ == name);
        }
    }
}

/// The bytes of a counter are those of the last item that is one of its name, whatever items
/// of other names stand before and behind it.
pub proof fn the_last_counter_counts(items: Seq<Tree>, name: Seq<char>, k: int)
    requires
        0 <= k < items.len(),
        item_bytes(items[k], name) is Some,
        forall|j: int| k < j < items.len() ==> item_bytes(#[trigger] items[j], name) is None,
    ensures
        counter_bytes(items, name) == item_bytes(items[k], name),
    decreases items.len(),
{
    if k < items.len() - 1 {
        let fewer = items.drop_last();
        assert(item_bytes(items[items.len() - 1], name) is None);
        assert(fewer[k] == items[k]);
        assert forall|j: int| k < j < fewer.len() implies item_bytes(
            #[trigger] fewer[j],
            name,
        ) is None by {
            assert(fewer[j] == items[j]);
        }
        the_last_counter_counts(fewer, name, k);
    }
}

/// What a listing tells as received is the counter of received local bytes, and as sent that
/// of sent ones; nothing where one of them is missing.
pub proof fn received_and_sent_are_told_apart(listing: Tree, items: Seq<Tree>)
    requires
        field(listing, "nftables"@) == Some(Tree::List(items)),
    ensures
        ({
            let rx = counter_bytes(items, "lan_rx_bytes"@);
            let tx = counter_bytes(items, "lan_tx_bytes"@);
            &&& lan_counters(listing) is Some <==> rx is Some && tx is Some
            &&& lan_counters(listing) matches Some(c) ==> rx == Some(c.0) && tx == Some(c.1)
        }),
{
}

} // verus!
