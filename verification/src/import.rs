//! The import of daily history from vnStat.
use crate::calendar::{
    civil_midnight, date_exists, day_number, in_instants, len_of_month, midnight, Civil,
};
use crate::config::{matches_any, Config};
use crate::db::{rest, Row};
use crate::text::{decimal, push_decimal, texts};
use crate::tree::{
    as_items, as_signed, as_text, field, field2, get, get2, item_trees, items_in, json_document,
    parse_json, signed_in, text_in, tree, tree_in, Node, Tree,
};
use vstd::arithmetic::div_mod::{lemma_mod_add_multiples_vanish, lemma_mod_bound};
use vstd::prelude::*;
use vstd::string::*;

verus! {

/// The words of the command whose output is read: with a database if one is named.
pub open spec fn vnstat_words(db: Option<Seq<char>>) -> Seq<Seq<char>> {
    match db {
        Some(path) => seq!["--json"@, "--db"@, path],
        None => seq!["--json"@],
    }
}

/// The words of the command whose output is read.
pub fn vnstat_args(db: Option<&str>) -> (v: Vec<String>)
    ensures
        texts(v@) == vnstat_words(
            match db {
                Some(path) => Some(path@),
                None => None,
            },
        ),
{
    let mut v: Vec<String> = Vec::new();
    v.push("--json".to_owned());
    match db {
        Some(path) => {
            v.push("--db".to_owned());
            v.push(path.to_owned());
            assert(texts(v@) =~= vnstat_words(Some(path@)));
        },
        None => {
            assert(texts(v@) =~= vnstat_words(None));
        },
    }
    v
}

// ---- numbers of fewer bits ----

/// A number cut down to `size` values, half of them negative.
pub open spec fn wrapped(n: int, size: int) -> int {
    (n + size / 2) % size - size / 2
}

fn wrap(n: i64, size: u64) -> (r: i64)
    requires
        size == 0x100 || size == 0x1_0000 || size == 0x1_0000_0000,
    ensures
        r == wrapped(n as int, size as int),
        -(size / 2) <= r < size / 2,
{
    let up: u128 = (n as i128 + 0x8000_0000_0000_0000 + (size / 2) as i128) as u128;
    let low: u64 = (up % size as u128) as u64;
    proof {
        let m = n + size as int / 2;
        let k = 0x8000_0000_0000_0000int;
        if size == 0x100 {
            assert((m + k) % 0x100 == m % 0x100);
        } else if size == 0x1_0000 {
            assert((m + k) % 0x1_0000 == m % 0x1_0000);
        } else {
            assert((m + k) % 0x1_0000_0000 == m % 0x1_0000_0000);
        }
    }
    low as i64 - (size / 2) as i64
}

// ---- days ----

/// Whether a date exists, from year -9999 to year 9999.
fn real_date(year: i16, month: i8, day: i8) -> (r: bool)
    ensures
        r == (-9999 <= year <= 9999 && date_exists(year as int, month as int, day as int)),
{
    if year < -9999 || year > 9999 || month < 1 || month > 12 || day < 1 {
        return false;
    }
    day <= len_of_month(year, month)
}

/// A number with a sign, or another one where there is none.
pub open spec fn number_or(t: Option<Tree>, otherwise: int) -> int {
    match as_signed(t) {
        Some(n) => n as int,
        None => otherwise,
    }
}

fn number(v: Option<&Node>, otherwise: i64) -> (r: i64)
    ensures
        r == number_or(tree_in(v), otherwise as int),
{
    match signed_in(v) {
        Some(n) => n,
        None => otherwise,
    }
}

/// What a day stands for: nothing to store, bytes at a midnight, or no date at all.
pub enum Outcome {
    Skip,
    Bytes(int, int, int),
    Bad,
}

/// What a day stands for. Its year counts in 32 bits, and those before 2000 are left out.
/// The date is then read in 16 bits for the year, and 8 for the month and the day.
pub open spec fn day_outcome(day: Tree, zone: jiff::tz::TimeZone) -> Outcome {
    let y = wrapped(number_or(field2(day, "date"@, "year"@), 0), 0x1_0000_0000);
    let m = wrapped(number_or(field2(day, "date"@, "month"@), 1), 0x1_0000_0000);
    let d = wrapped(number_or(field2(day, "date"@, "day"@), 1), 0x1_0000_0000);
    let (year, month, date) = (wrapped(y, 0x1_0000), wrapped(m, 0x100), wrapped(d, 0x100));
    if y < 2000 {
        Outcome::Skip
    } else if !(-9999 <= year <= 9999 && date_exists(year, month, date)) || !in_instants(
        midnight(zone, day_number(year, month, date)),
    ) {
        Outcome::Bad
    } else {
        Outcome::Bytes(
            midnight(zone, day_number(year, month, date)),
            number_or(field(day, "rx"@), 0),
            number_or(field(day, "tx"@), 0),
        )
    }
}

enum Read {
    Skip,
    Bytes(i64, i64, i64),
    Bad,
}

spec fn read_as(r: Read) -> Outcome {
    match r {
        Read::Skip => Outcome::Skip,
        Read::Bytes(ts, rx, tx) => Outcome::Bytes(ts as int, rx as int, tx as int),
        Read::Bad => Outcome::Bad,
    }
}

fn read_day(day: &Node, zone: &jiff::tz::TimeZone) -> (r: Read)
    ensures
        read_as(r) == day_outcome(tree(*day), *zone),
{
    let y = wrap(number(get2(day, "date", "year"), 0), 0x1_0000_0000);
    let m = wrap(number(get2(day, "date", "month"), 1), 0x1_0000_0000);
    let d = wrap(number(get2(day, "date", "day"), 1), 0x1_0000_0000);
    let rx = number(get(day, "rx"), 0);
    let tx = number(get(day, "tx"), 0);
    if y < 2000 {
        return Read::Skip;
    }
    let year = wrap(y, 0x1_0000) as i16;
    let month = wrap(m, 0x100) as i8;
    let date = wrap(d, 0x100) as i8;
    if !real_date(year, month, date) {
        return Read::Bad;
    }
    let c = Civil { year, month, day: date, hour: 0, minute: 0, second: 0 };
    match civil_midnight(c, zone) {
        Some(ts) => Read::Bytes(ts, rx, tx),
        None => Read::Bad,
    }
}

// ---- interfaces ----

/// The name of an interface, a question mark where it has none.
pub open spec fn name_of(iface: Tree) -> Seq<char> {
    match as_text(field(iface, "name"@)) {
        Some(s) => s,
        None => "?"@,
    }
}

/// The days of an interface, each with its name; none where the interface is left out.
pub open spec fn days_of(iface: Tree, cfg: Config) -> Seq<(Seq<char>, Tree)> {
    let name = name_of(iface);
    let days = as_items(field2(iface, "traffic"@, "days"@));
    if matches_any(cfg.exclude_ifaces@, name) {
        Seq::empty()
    } else {
        Seq::new(days.len(), |i: int| (name, days[i]))
    }
}

/// The days of all interfaces.
pub open spec fn all_days(ifaces: Seq<Tree>, cfg: Config) -> Seq<(Seq<char>, Tree)>
    decreases ifaces.len(),
{
    if ifaces.len() == 0 {
        Seq::empty()
    } else {
        all_days(ifaces.drop_last(), cfg) + days_of(ifaces.last(), cfg)
    }
}

/// What is stored of some days: rows with a midnight, an interface and bytes, up to the
/// first day that is no date; and whether there was none such.
pub open spec fn taken(
    days: Seq<(Seq<char>, Tree)>,
    zone: jiff::tz::TimeZone,
) -> (Seq<(int, Seq<char>, int, int)>, bool)
    decreases days.len(),
{
    if days.len() == 0 {
        (Seq::empty(), true)
    } else {
        let (rows, ok) = taken(days.drop_last(), zone);
        if !ok {
            (rows, false)
        } else {
            match day_outcome(days.last().1, zone) {
                Outcome::Skip => (rows, true),
                Outcome::Bytes(ts, rx, tx) => (rows.push((ts, days.last().0, rx, tx)), true),
                Outcome::Bad => (rows, false),
            }
        }
    }
}

/// What is imported: the rows to store, and whether every day could be read. Where one
/// could not, the rows are those before it. Nothing is known to be local in them.
pub struct Import {
    pub rows: Vec<Row>,
    pub complete: bool,
}

/// Whether no byte of some rows is local.
pub open spec fn nothing_local(rows: Seq<Row>) -> bool {
    forall|i: int| 0 <= i < rows.len() ==> (#[trigger] rows[i]).lan_rx == 0 && rows[i].lan_tx == 0
}

/// What some rows hold.
pub open spec fn held(rows: Seq<Row>) -> Seq<(int, Seq<char>, int, int)> {
    Seq::new(
        rows.len(),
        |i: int| (rows[i].ts as int, rows[i].iface@, rows[i].rx as int, rows[i].tx as int),
    )
}

proof fn taken_stops(
    days: Seq<(Seq<char>, Tree)>,
    more: Seq<(Seq<char>, Tree)>,
    zone: jiff::tz::TimeZone,
)
    requires
        !taken(days, zone).1,
    ensures
        taken(days + more, zone) == taken(days, zone),
    decreases more.len(),
{
    if more.len() == 0 {
        assert(days + more =~= days);
    } else {
        taken_stops(days, more.drop_last(), zone);
        assert((days + more).drop_last() =~= days + more.drop_last());
    }
}

/// The days of the interfaces from some place on follow those before it.
proof fn all_days_split(ifaces: Seq<Tree>, cfg: Config, n: int) -> (more: Seq<(Seq<char>, Tree)>)
    requires
        0 <= n <= ifaces.len(),
    ensures
        all_days(ifaces, cfg) == all_days(ifaces.take(n), cfg) + more,
    decreases ifaces.len(),
{
    if n == ifaces.len() {
        assert(ifaces.take(n) =~= ifaces);
        assert(all_days(ifaces, cfg) + Seq::empty() =~= all_days(ifaces, cfg));
        Seq::empty()
    } else {
        let before = all_days_split(ifaces.drop_last(), cfg, n);
        assert(ifaces.drop_last().take(n) =~= ifaces.take(n));
        let more = before + days_of(ifaces.last(), cfg);
        assert(all_days(ifaces, cfg) =~= all_days(ifaces.take(n), cfg) + more);
        more
    }
}

/// Takes the days of one interface in. False where a day is no date.
fn take_days(
    rows: &mut Vec<Row>,
    name: &str,
    days: &Vec<Node>,
    zone: &jiff::tz::TimeZone,
    Ghost(before): Ghost<Seq<(Seq<char>, Tree)>>,
) -> (ok: bool)
    requires
        taken(before, *zone) == (held(old(rows)@), true),
        nothing_local(old(rows)@),
    ensures
        nothing_local(final(rows)@),
        taken(
            before + Seq::new(
                days@.len(),
                |i: int| (name@, item_trees(days@)[i]),
            ),
            *zone,
        ) == (held(final(rows)@), ok),
{
    let ghost mine = Seq::new(days@.len(), |i: int| (name@, item_trees(days@)[i]));
    let mut i: usize = 0;
    assert(before + mine.take(0) =~= before);
    while i < days.len()
        invariant
            i <= days.len(),
            mine == Seq::new(days@.len(), |i: int| (name@, item_trees(days@)[i])),
            taken(before + mine.take(i as int), *zone) == (held(rows@), true),
            nothing_local(rows@),
        decreases days.len() - i,
    {
        let ghost upto = before + mine.take(i + 1);
        proof {
            assert(upto.drop_last() =~= before + mine.take(i as int));
            assert(upto.last() == (name@, tree(days@[i as int])));
        }
        match read_day(&days[i], zone) {
            Read::Skip => {},
            Read::Bytes(ts, rx, tx) => {
                let ghost had = held(rows@);
                rows.push(Row { ts, iface: name.to_owned(), rx, tx, lan_rx: 0, lan_tx: 0 });
                assert(held(rows@) =~= had.push((ts as int, name@, rx as int, tx as int)));
            },
            Read::Bad => {
                proof {
                    taken_stops(upto, mine.skip(i + 1), *zone);
                    assert(before + mine =~= upto + mine.skip(i + 1));
                }
                return false;
            },
        }
        i = i + 1;
    }
    assert(mine.take(i as int) =~= mine);
    true
}

/// What is imported from a document of vnStat.
pub fn read_days(doc: &Node, cfg: &Config, zone: &jiff::tz::TimeZone) -> (r: Import)
    ensures
        (held(r.rows@), r.complete) == taken(
            all_days(as_items(field(tree(*doc), "interfaces"@)), *cfg),
            *zone,
        ),
        nothing_local(r.rows@),
{
    let mut rows: Vec<Row> = Vec::new();
    assert(held(rows@) =~= Seq::empty());
    let ifaces = match items_in(get(doc, "interfaces")) {
        Some(v) => v,
        None => {
            return Import { rows, complete: true };
        },
    };
    let ghost all = item_trees(ifaces@);
    let mut i: usize = 0;
    while i < ifaces.len()
        invariant
            i <= ifaces.len(),
            all == item_trees(ifaces@),
            all == as_items(field(tree(*doc), "interfaces"@)),
            taken(all_days(all.take(i as int), *cfg), *zone) == (held(rows@), true),
            nothing_local(rows@),
        decreases ifaces.len() - i,
    {
        let iface = &ifaces[i];
        let ghost before = all_days(all.take(i as int), *cfg);
        proof {
            assert(all.take(i + 1).drop_last() =~= all.take(i as int));
            assert(all.take(i + 1).last() == tree(*iface));
        }
        let name: &str = match text_in(get(iface, "name")) {
            Some(s) => s.as_str(),
            None => "?",
        };
        assert(name@ == name_of(tree(*iface)));
        if !cfg.excluded(name) {
            match items_in(get2(iface, "traffic", "days")) {
                Some(days) => {
                    let ghost mine = Seq::new(
                        days@.len(),
                        |i: int| (name@, item_trees(days@)[i]),
                    );
                    assert(days_of(tree(*iface), *cfg) =~= mine);
                    if !take_days(&mut rows, name, days, zone, Ghost(before)) {
                        proof {
                            let more = all_days_split(all, *cfg, i + 1);
                            taken_stops(before + mine, more, *zone);
                        }
                        return Import { rows, complete: false };
                    }
                },
                None => {
                    assert(days_of(tree(*iface), *cfg) =~= Seq::empty());
                    assert(before + Seq::empty() =~= before);
                },
            }
        } else {
            assert(before + Seq::empty() =~= before);
        }
        i = i + 1;
    }
    assert(all.take(i as int) =~= all);
    Import { rows, complete: true }
}

/// What is imported from the output of vnStat; nothing where it is no JSON.
pub fn read_vnstat(output: &[u8], cfg: &Config, zone: &jiff::tz::TimeZone) -> (r: Option<Import>)
    ensures
        r is Some <==> json_document(output@) is Some,
        r matches Some(x) ==> (held(x.rows@), x.complete) == taken(
            all_days(as_items(field(json_document(output@)->0, "interfaces"@)), *cfg),
            *zone,
        ) && nothing_local(x.rows@),
{
    match parse_json(output) {
        Some(doc) => Some(read_days(&doc, cfg, zone)),
        None => None,
    }
}

/// No row is imported of an interface that is left out.
pub proof fn left_out_is_not_imported(
    ifaces: Seq<Tree>,
    cfg: Config,
    zone: jiff::tz::TimeZone,
    i: int,
)
    requires
        0 <= i < taken(all_days(ifaces, cfg), zone).0.len(),
    ensures
        !matches_any(cfg.exclude_ifaces@, taken(all_days(ifaces, cfg), zone).0[i].1),
{
    let days = all_days(ifaces, cfg);
    taken_from_days(days, zone, i);
    let k = choose|k: int|
        0 <= k < days.len() && (#[trigger] days[k]).0 == taken(days, zone).0[i].1;
    days_not_left_out(ifaces, cfg, k);
}

proof fn taken_from_days(days: Seq<(Seq<char>, Tree)>, zone: jiff::tz::TimeZone, i: int)
    requires
        0 <= i < taken(days, zone).0.len(),
    ensures
        exists|k: int| 0 <= k < days.len() && (#[trigger] days[k]).0 == taken(days, zone).0[i].1,
    decreases days.len(),
{
    let fewer = days.drop_last();
    let before = taken(fewer, zone).0;
    if i < before.len() {
        taken_from_days(fewer, zone, i);
        let k = choose|k: int| 0 <= k < fewer.len() && (#[trigger] fewer[k]).0 == before[i].1;
        assert(days[k] == fewer[k]);
    } else {
        assert(days[days.len() - 1].0 == taken(days, zone).0[i].1);
    }
}

proof fn days_not_left_out(ifaces: Seq<Tree>, cfg: Config, k: int)
    requires
        0 <= k < all_days(ifaces, cfg).len(),
    ensures
        !matches_any(cfg.exclude_ifaces@, all_days(ifaces, cfg)[k].0),
    decreases ifaces.len(),
{
    if k < all_days(ifaces.drop_last(), cfg).len() {
        days_not_left_out(ifaces.drop_last(), cfg, k);
    }
}

/// In imported history every byte is from or to outside.
pub proof fn imported_bytes_are_outside(rows: Seq<Row>, i: int)
    requires
        nothing_local(rows),
        0 <= i < rows.len(),
        rows[i].rx >= 0,
        rows[i].tx >= 0,
    ensures
        rest(rows[i].rx as int, rows[i].lan_rx as int) == rows[i].rx,
        rest(rows[i].tx as int, rows[i].lan_tx as int) == rows[i].tx,
{
}

/// What is said of an import.
pub open spec fn import_text(n: nat) -> Seq<char> {
    "imported "@ + decimal(n) + " daily rows from vnstat (LAN unknown → 0, WAN=TOTAL)"@
}

/// What is said of an import.
pub fn import_message(n: usize) -> (r: String)
    ensures
        r@ == import_text(n as nat),
{
    let mut r = String::new();
    r.append("imported ");
    push_decimal(&mut r, n as u128);
    r.append(" daily rows from vnstat (LAN unknown → 0, WAN=TOTAL)");
    assert(r@ =~= import_text(n as nat));
    r
}

// ---- every day is imported ----

/// A number that fits in the bits it is cut down to keeps its value.
pub proof fn fitting_numbers_are_not_cut(n: int, size: int)
    requires
        size == 0x100 || size == 0x1_0000 || size == 0x1_0000_0000,
        -(size / 2) <= n < size / 2,
    ensures
        wrapped(n, size) == n,
{
}

/// A day from the year 2000 on whose midnight exists stands for its bytes received and sent
/// at that midnight; a byte count that is missing is none.
pub proof fn a_day_stands_for_its_bytes(
    day: Tree,
    zone: jiff::tz::TimeZone,
    y: i64,
    m: i64,
    d: i64,
)
    requires
        as_signed(field2(day, "date"@, "year"@)) == Some(y),
        as_signed(field2(day, "date"@, "month"@)) == Some(m),
        as_signed(field2(day, "date"@, "day"@)) == Some(d),
        2000 <= y <= 9999,
        date_exists(y as int, m as int, d as int),
        in_instants(midnight(zone, day_number(y as int, m as int, d as int))),
    ensures
        day_outcome(day, zone) matches Outcome::Bytes(ts, rx, tx) && {
            &&& ts == midnight(zone, day_number(y as int, m as int, d as int))
            &&& as_signed(field(day, "rx"@)) matches Some(n) ==> rx == n
            &&& as_signed(field(day, "tx"@)) matches Some(n) ==> tx == n
            &&& as_signed(field(day, "rx"@)) is None ==> rx == 0
            &&& as_signed(field(day, "tx"@)) is None ==> tx == 0
        },
{
    fitting_numbers_are_not_cut(y as int, 0x1_0000_0000);
    fitting_numbers_are_not_cut(m as int, 0x1_0000_0000);
    fitting_numbers_are_not_cut(d as int, 0x1_0000_0000);
    fitting_numbers_are_not_cut(y as int, 0x1_0000);
    fitting_numbers_are_not_cut(m as int, 0x100);
    fitting_numbers_are_not_cut(d as int, 0x100);
}

/// A day before the year 2000, or without a year, is left out; one from then on whose date
/// does not exist is no date.
pub proof fn days_without_a_date(day: Tree, zone: jiff::tz::TimeZone, y: i64, m: i64, d: i64)
    requires
        as_signed(field2(day, "date"@, "year"@)) == Some(y),
        as_signed(field2(day, "date"@, "month"@)) == Some(m),
        as_signed(field2(day, "date"@, "day"@)) == Some(d),
        0 <= y <= 9999,
        0 <= m <= 99,
        0 <= d <= 99,
    ensures
        y < 2000 ==> day_outcome(day, zone) == Outcome::Skip,
        y >= 2000 && !date_exists(y as int, m as int, d as int) ==> day_outcome(day, zone)
            == Outcome::Bad,
{
    fitting_numbers_are_not_cut(y as int, 0x1_0000_0000);
    fitting_numbers_are_not_cut(m as int, 0x1_0000_0000);
    fitting_numbers_are_not_cut(d as int, 0x1_0000_0000);
    fitting_numbers_are_not_cut(y as int, 0x1_0000);
    fitting_numbers_are_not_cut(m as int, 0x100);
    fitting_numbers_are_not_cut(d as int, 0x100);
}

/// Everything is taken just where no day is no date.
pub proof fn only_a_bad_date_stops_an_import(
    days: Seq<(Seq<char>, Tree)>,
    zone: jiff::tz::TimeZone,
)
    ensures
        taken(days, zone).1 <==> forall|k: int|
            0 <= k < days.len() ==> day_outcome((#[trigger] days[k]).1, zone) != Outcome::Bad,
    decreases days.len(),
{
    if days.len() > 0 {
        let fewer = days.drop_last();
        only_a_bad_date_stops_an_import(fewer, zone);
        if taken(fewer, zone).1 {
            assert forall|k: int| 0 <= k < fewer.len() implies day_outcome(
                (#[trigger] days[k]).1,
                zone,
            ) != Outcome::Bad by {
                assert(fewer[k] == days[k]);
            }
        } else {
            let k = choose|k: int|
                0 <= k < fewer.len() && day_outcome((#[trigger] fewer[k]).1, zone) == Outcome::Bad;
            assert(days[k] == fewer[k]);
        }
        assert(days[days.len() - 1] == days.last());
    }
}

/// Every day with bytes before the first that is no date is taken, under the name of its
/// interface, at its midnight and with its bytes.
pub proof fn every_day_is_taken(
    days: Seq<(Seq<char>, Tree)>,
    zone: jiff::tz::TimeZone,
    k: int,
    ts: int,
    rx: int,
    tx: int,
)
    requires
        0 <= k < days.len(),
        day_outcome(days[k].1, zone) == Outcome::Bytes(ts, rx, tx),
        forall|j: int| 0 <= j < k ==> day_outcome((#[trigger] days[j]).1, zone) != Outcome::Bad,
    ensures
        taken(days, zone).0.contains((ts, days[k].0, rx, tx)),
    decreases days.len(),
{
    let fewer = days.drop_last();
    let (before, all) = (taken(fewer, zone).0, taken(days, zone).0);
    let row = (ts, days[k].0, rx, tx);
    if k < fewer.len() {
        assert(fewer[k] == days[k]);
        assert forall|j: int| 0 <= j < k implies day_outcome((#[trigger] fewer[j]).1, zone)
            != Outcome::Bad by {
            assert(fewer[j] == days[j]);
        }
        every_day_is_taken(fewer, zone, k, ts, rx, tx);
        let i = choose|i: int| 0 <= i < before.len() && before[i] == row;
        assert(all[i] == row);
    } else {
        assert forall|j: int| 0 <= j < fewer.len() implies day_outcome(
            (#[trigger] fewer[j]).1,
            zone,
        ) != Outcome::Bad by {
            assert(fewer[j] == days[j]);
        }
        only_a_bad_date_stops_an_import(fewer, zone);
        assert(all[all.len() - 1] == row);
    }
}

/// Whether some day stands for a row.
pub open spec fn some_day_holds(
    days: Seq<(Seq<char>, Tree)>,
    zone: jiff::tz::TimeZone,
    row: (int, Seq<char>, int, int),
) -> bool {
    exists|k: int|
        0 <= k < days.len() && (#[trigger] days[k]).0 == row.1 && day_outcome(days[k].1, zone)
            == Outcome::Bytes(row.0, row.2, row.3)
}

/// Nothing is taken that no day stands for, and no day is taken twice.
pub proof fn only_days_are_taken(days: Seq<(Seq<char>, Tree)>, zone: jiff::tz::TimeZone, i: int)
    ensures
        taken(days, zone).0.len() <= days.len(),
        0 <= i < taken(days, zone).0.len() ==> some_day_holds(
            days,
            zone,
            taken(days, zone).0[i],
        ),
    decreases days.len(),
{
    if days.len() > 0 {
        let fewer = days.drop_last();
        let (before, all) = (taken(fewer, zone).0, taken(days, zone).0);
        only_days_are_taken(fewer, zone, i);
        if 0 <= i < before.len() {
            let row = before[i];
            assert(all[i] == row);
            let k = choose|k: int|
                0 <= k < fewer.len() && (#[trigger] fewer[k]).0 == row.1 && day_outcome(
                    fewer[k].1,
                    zone,
                ) == Outcome::Bytes(row.0, row.2, row.3);
            assert(days[k] == fewer[k]);
        } else if i < all.len() {
            assert(days[days.len() - 1] == days.last());
        }
    }
}

/// Every day of every interface that is not left out is among the days of all, with the
/// name of its interface.
pub proof fn every_interface_gives_its_days(ifaces: Seq<Tree>, cfg: Config, i: int, j: int)
    requires
        0 <= i < ifaces.len(),
        !matches_any(cfg.exclude_ifaces@, name_of(ifaces[i])),
        0 <= j < as_items(field2(ifaces[i], "traffic"@, "days"@)).len(),
    ensures
        all_days(ifaces, cfg).contains(
            (name_of(ifaces[i]), as_items(field2(ifaces[i], "traffic"@, "days"@))[j]),
        ),
    decreases ifaces.len(),
{
    let fewer = ifaces.drop_last();
    let before = all_days(fewer, cfg);
    let all = all_days(ifaces, cfg);
    let day = (name_of(ifaces[i]), as_items(field2(ifaces[i], "traffic"@, "days"@))[j]);
    if i < fewer.len() {
        assert(fewer[i] == ifaces[i]);
        every_interface_gives_its_days(fewer, cfg, i, j);
        let k = choose|k: int| 0 <= k < before.len() && before[k] == day;
        assert(all[k] == day);
    } else {
        assert(all[before.len() + j] == day);
    }
}

/// An interface is known by its name, and by a question mark where it has none.
pub proof fn interfaces_are_known_by_their_name(iface: Tree, name: Seq<char>)
    ensures
        field(iface, "name"@) == Some(Tree::Text(name)) ==> name_of(iface) == name,
        field(iface, "name"@) is None ==> name_of(iface) == "?"@,
{
}

/// What is said of an import tells the number of its rows.
pub proof fn imports_tell_their_rows(n: nat)
    ensures
        import_text(n).subrange(9, 9 + decimal(n).len() as int) == decimal(n),
{
    reveal_strlit("imported ");
    assert(import_text(n).subrange(9, 9 + decimal(n).len() as int) =~= decimal(n));
}

/// A number is cut down to the one of the range that differs from it by a multiple of its
/// size.
pub proof fn cut_numbers_lie_in_their_range(n: int, size: int)
    requires
        size == 0x100 || size == 0x1_0000 || size == 0x1_0000_0000,
    ensures
        -(size / 2) <= wrapped(n, size) < size / 2,
        wrapped(n + size, size) == wrapped(n, size),
{
    lemma_mod_bound(n + size / 2, size);
    lemma_mod_add_multiples_vanish(n + size / 2, size);
    assert(size + (n + size / 2) == n + size + size / 2);
}

} // verus!
