//! The live dashboard: what its keys do, the rates it shows, and its history bars.
use crate::calendar::{
    clock, date_of, day_at, hour_at, start_exists, start_in, Unit, FIRST_INSTANT, LAST_INSTANT,
};
use crate::capture::{counter_map, distinct, put_counter, Counter};
use crate::config::{matches_any, Config};
use crate::daemon::{as_signed, find_counter, to_signed};
use crate::db::{
    bucket, bytes_of, fits, is_bucketed, rest, same_rows, same_rows_same_buckets,
    same_rows_same_spans, spans_fit, starts_exist, Row,
};
use crate::double::{
    all_of_ten_is_ten, at_least, bits_double, bits_positive, int_double, int_is_exact,
    integers_are_not_rounded, nearest_int, nearest_parts_are_near, nothing_is_no_part, of_bits,
    of_int, one, one_is_exact, over, part_of_nothing, parts_are_whole_parts, product, push_nearest,
    quotient, quotient_reaches_one, rounded, tenths, times, to_rounded, to_tenths, to_whole,
    unit_bits, whole, whole_products_are_exact, whole_quotients_are_exact, Double, INFINITY_BITS,
};
use crate::fmtx::{bar, bar_of, bytes_text, filled, fmt_bytes, one_place, push_one_place};
use crate::show::Plan;
use crate::sort::{comes_before, is_order, order, order_names_every_place};
use crate::text::{decimal, magnitude, push_zero_padded, same_text, texts, zero_padded};
use vstd::arithmetic::power2::lemma_pow2_pos;
use vstd::prelude::*;
use vstd::string::*;

verus! {

// ---- keys ----

/// A key that was pressed.
#[derive(Clone, Copy, PartialEq, Eq, Structural, Debug)]
pub enum Key {
    Char(char),
    Esc,
    Other,
}

/// What the keys change: the units, and the milliseconds from one look to the next.
#[derive(Clone, Copy)]
pub struct Controls {
    pub dec: bool,
    pub interval_ms: u64,
}

impl Controls {
    /// The dashboard is refreshed every quarter of a second at most, every five seconds
    /// at least.
    pub open spec fn valid(self) -> bool {
        250 <= self.interval_ms <= 5000
    }

    /// The start: the configured units, one look per second.
    pub fn new(cfg: &Config) -> (r: Controls)
        ensures
            r.valid(),
            r.dec == (cfg.units@ == "decimal"@),
            r.interval_ms == 1000,
    {
        Controls { dec: cfg.decimal_units(), interval_ms: 1000 }
    }

    /// What a key does: `q` and Escape quit, `u` changes the units, `+` and `=` refresh a
    /// quarter of a second sooner, `-` a quarter later. True to quit.
    pub fn press(&mut self, key: Key) -> (quit: bool)
        requires
            old(self).valid(),
        ensures
            final(self).valid(),
            quit == (key == Key::Char('q') || key == Key::Esc),
            *final(self) == after_key(*old(self), key),
            final(self).dec == if key == Key::Char('u') {
                !old(self).dec
            } else {
                old(self).dec
            },
            final(self).interval_ms == if key == Key::Char('+') || key == Key::Char('=') {
                if old(self).interval_ms < 500 {
                    250
                } else {
                    old(self).interval_ms - 250
                }
            } else if key == Key::Char('-') {
                if old(self).interval_ms > 4750 {
                    5000
                } else {
                    old(self).interval_ms + 250
                }
            } else {
                old(self).interval_ms as int
            },
    {
        match key {
            Key::Esc => true,
            Key::Other => false,
            Key::Char(c) => {
                if c == 'q' {
                    return true;
                }
                if c == 'u' {
                    self.dec = !self.dec;
                } else if c == '+' || c == '=' {
                    self.interval_ms = if self.interval_ms < 500 {
                        250
                    } else {
                        self.interval_ms - 250
                    };
                } else if c == '-' {
                    self.interval_ms = if self.interval_ms > 4750 {
                        5000
                    } else {
                        self.interval_ms + 250
                    };
                }
                false
            },
        }
    }
}

/// Whether the totals are to be read again at a tick: the first, and every fifth after
/// it.
pub fn totals_due(tick: u64) -> (r: bool)
    ensures
        r == (tick % 5 == 1),
{
    tick % 5 == 1
}

/// Whether the history is to be read again at a tick: the first, and every fifteenth
/// after it.
pub fn history_due(tick: u64) -> (r: bool)
    ensures
        r == (tick % 15 == 1),
{
    tick % 15 == 1
}

// ---- rates ----

/// How many looks there are in a second.
pub open spec fn looks_per_second(interval_ms: u64) -> Double {
    quotient(int_double(1000), int_double(interval_ms as nat))
}

/// How many looks there are in a second.
pub fn per_second(interval_ms: u64) -> (r: Double)
    requires
        interval_ms > 0,
    ensures
        r == looks_per_second(interval_ms),
        r.within(351),
{
    over(of_int(1000), of_int(interval_ms))
}

/// A number cut off at a limit.
pub open spec fn at_most(n: nat, limit: nat) -> nat {
    if n <= limit {
        n
    } else {
        limit
    }
}

/// Bytes per look as whole bytes per second.
pub open spec fn rate_of(bytes: u64, per_sec: Double, limit: nat) -> nat {
    at_most(whole(product(int_double(bytes as nat), per_sec)), limit)
}

/// Bytes per look as text, per second.
pub open spec fn rate_text(bytes: u64, per_sec: Double, dec: bool) -> Seq<char> {
    bytes_text(rate_of(bytes, per_sec, i64::MAX as nat) as int, dec) + "/s"@
}

/// Bytes per look as text, per second.
pub fn fmt_rate(bps: u64, per_sec: Double, dec: bool) -> (r: String)
    requires
        per_sec.within(1000),
    ensures
        r@ == rate_text(bps, per_sec, dec),
{
    let n = to_whole(times(of_int(bps), per_sec), i64::MAX as u64);
    let mut r = fmt_bytes(n as i64, dec);
    r.append("/s");
    r
}

/// How far a counter has grown; one that fell has not.
pub open spec fn growth(old: u64, new: u64) -> u64 {
    if new >= old {
        (new - old) as u64
    } else {
        0
    }
}

fn grown(old: u64, new: u64) -> (r: u64)
    ensures
        r == growth(old, new),
{
    if new >= old {
        new - old
    } else {
        0
    }
}

/// What is shown as the local rate: both counters where two looks had them, a word where
/// there is no table to count in, else what was shown before.
pub open spec fn lan_text(
    was: Seq<char>,
    prev: Option<(u64, u64)>,
    now: Option<(u64, u64)>,
    table_exists: bool,
    per_sec: Double,
    dec: bool,
) -> Seq<char> {
    match (prev, now) {
        (Some(p), Some(n)) => "+"@ + rate_text(growth(p.0, n.0), per_sec, dec) + "/+"@ + rate_text(
            growth(p.1, n.1),
            per_sec,
            dec,
        ) + "B"@,
        _ => if table_exists {
            was
        } else {
            "n/a TOTAL-only"@
        },
    }
}

/// What is shown as the local rate.
pub fn lan_rate(
    was: String,
    prev: Option<(u64, u64)>,
    now: Option<(u64, u64)>,
    table_exists: bool,
    per_sec: Double,
    dec: bool,
) -> (r: String)
    requires
        per_sec.within(1000),
    ensures
        r@ == lan_text(was@, prev, now, table_exists, per_sec, dec),
{
    match (prev, now) {
        (Some((old_rx, old_tx)), Some((new_rx, new_tx))) => {
            let mut r = String::new();
            r.append("+");
            r.append(fmt_rate(grown(old_rx, new_rx), per_sec, dec).as_str());
            r.append("/+");
            r.append(fmt_rate(grown(old_tx, new_tx), per_sec, dec).as_str());
            r.append("B");
            assert(r@ =~= lan_text(was@, prev, now, table_exists, per_sec, dec));
            r
        },
        _ => if table_exists {
            was
        } else {
            "n/a TOTAL-only".to_owned()
        },
    }
}

// ---- interfaces ----

/// What the dashboard shows of an interface: bytes per second, and the bytes since it was
/// started.
pub struct IfRow {
    pub iface: String,
    pub down: u64,
    pub up: u64,
    pub session_rx: u64,
    pub session_tx: u64,
}

/// What an interface is shown to have moved since the last look. Nothing for one that is
/// left out, is not the one asked for, or was not there.
pub open spec fn seen(
    prev: Map<Seq<char>, (u64, u64)>,
    c: Counter,
    cfg: Config,
    filter: Option<Seq<char>>,
) -> Option<(u64, u64)> {
    if matches_any(cfg.exclude_ifaces@, c.iface@) || (filter is Some && filter->0 != c.iface@)
        || !prev.contains_key(c.iface@) {
        None
    } else {
        let old = prev[c.iface@];
        Some((growth(old.0, c.rx), growth(old.1, c.tx)))
    }
}

/// What an interface has moved since the start, up to the last look.
pub open spec fn session_of(session: Map<Seq<char>, (u64, u64)>, name: Seq<char>) -> (u64, u64) {
    if session.contains_key(name) {
        session[name]
    } else {
        (0, 0)
    }
}

/// Whether the sums that are shown of an interface fit.
pub open spec fn row_fits(
    session: Map<Seq<char>, (u64, u64)>,
    name: Seq<char>,
    moved: (u64, u64),
    per_sec: Double,
) -> bool {
    let s = session_of(session, name);
    &&& s.0 + moved.0 + s.1 + moved.1 <= u64::MAX
    &&& rate_of(moved.0, per_sec, u64::MAX as nat) + rate_of(moved.1, per_sec, u64::MAX as nat)
        <= u64::MAX
}

/// Whether a row shows what an interface has moved.
pub open spec fn is_row(
    r: IfRow,
    session: Map<Seq<char>, (u64, u64)>,
    name: Seq<char>,
    moved: (u64, u64),
    per_sec: Double,
) -> bool {
    let s = session_of(session, name);
    &&& r.iface@ == name
    &&& r.down == rate_of(moved.0, per_sec, u64::MAX as nat)
    &&& r.up == rate_of(moved.1, per_sec, u64::MAX as nat)
    &&& r.session_rx == s.0 + moved.0
    &&& r.session_tx == s.1 + moved.1
}

/// The interfaces that are shown, as their places among all that were read.
pub open spec fn shown_places(
    prev: Map<Seq<char>, (u64, u64)>,
    cur: Seq<Counter>,
    cfg: Config,
    filter: Option<Seq<char>>,
) -> Seq<int>
    decreases cur.len(),
{
    if cur.len() == 0 {
        Seq::empty()
    } else {
        let before = shown_places(prev, cur.drop_last(), cfg, filter);
        if seen(prev, cur.last(), cfg, filter) is Some {
            before.push(cur.len() - 1)
        } else {
            before
        }
    }
}

/// What all interfaces have moved since the start, with this look.
pub open spec fn session_after(
    session: Map<Seq<char>, (u64, u64)>,
    prev: Map<Seq<char>, (u64, u64)>,
    cur: Seq<Counter>,
    cfg: Config,
    filter: Option<Seq<char>>,
) -> Map<Seq<char>, (u64, u64)>
    decreases cur.len(),
{
    if cur.len() == 0 {
        session
    } else {
        let before = session_after(session, prev, cur.drop_last(), cfg, filter);
        match seen(prev, cur.last(), cfg, filter) {
            Some(m) => {
                let s = session_of(before, cur.last().iface@);
                before.insert(cur.last().iface@, ((s.0 + m.0) as u64, (s.1 + m.1) as u64))
            },
            None => before,
        }
    }
}

/// Whether the sums of every interface that is shown fit.
pub open spec fn rows_fit(
    session: Map<Seq<char>, (u64, u64)>,
    prev: Map<Seq<char>, (u64, u64)>,
    cur: Seq<Counter>,
    cfg: Config,
    filter: Option<Seq<char>>,
    per_sec: Double,
) -> bool {
    forall|i: int|
        0 <= i < cur.len() ==> match seen(prev, #[trigger] cur[i], cfg, filter) {
            Some(m) => row_fits(session, cur[i].iface@, m, per_sec),
            None => true,
        }
}

proof fn session_untouched(
    session: Map<Seq<char>, (u64, u64)>,
    prev: Map<Seq<char>, (u64, u64)>,
    cur: Seq<Counter>,
    cfg: Config,
    filter: Option<Seq<char>>,
    name: Seq<char>,
)
    requires
        forall|i: int| 0 <= i < cur.len() ==> (#[trigger] cur[i]).iface@ != name,
    ensures
        session_of(session_after(session, prev, cur, cfg, filter), name) == session_of(
            session,
            name,
        ),
    decreases cur.len(),
{
    if cur.len() > 0 {
        assert(cur[cur.len() - 1].iface@ != name);
        assert forall|i: int| 0 <= i < cur.drop_last().len() implies (
        #[trigger] cur.drop_last()[i]).iface@ != name by {
            assert(cur[i].iface@ != name);
        }
        session_untouched(session, prev, cur.drop_last(), cfg, filter, name);
    }
}

/// The text of an optional word.
pub open spec fn word_in(s: Option<&str>) -> Option<Seq<char>> {
    match s {
        Some(w) => Some(w@),
        None => None,
    }
}

/// What is shown of the interfaces at a look, and what they have moved since the start.
/// Nothing where a sum does not fit.
pub fn look(
    prev: &Vec<Counter>,
    cur: &Vec<Counter>,
    session: &mut Vec<Counter>,
    cfg: &Config,
    filter: Option<&str>,
    per_sec: Double,
) -> (r: Option<Vec<IfRow>>)
    requires
        distinct(cur@),
        distinct(old(session)@),
        per_sec.within(1000),
    ensures
        distinct(final(session)@),
        r is Some <==> rows_fit(
            counter_map(old(session)@),
            counter_map(prev@),
            cur@,
            *cfg,
            word_in(filter),
            per_sec,
        ),
        r matches Some(rows) ==> is_look(
            rows@,
            counter_map(old(session)@),
            counter_map(final(session)@),
            counter_map(prev@),
            cur@,
            *cfg,
            word_in(filter),
            per_sec,
        ),
        r matches Some(rows) ==> {
            let places = shown_places(counter_map(prev@), cur@, *cfg, word_in(filter));
            &&& rows.len() == places.len()
            &&& forall|k: int|
                0 <= k < rows.len() ==> {
                    let c = cur@[#[trigger] places[k]];
                    is_row(
                        rows@[k],
                        counter_map(old(session)@),
                        c.iface@,
                        seen(counter_map(prev@), c, *cfg, word_in(filter))->0,
                        per_sec,
                    )
                }
            &&& counter_map(final(session)@) == session_after(
                counter_map(old(session)@),
                counter_map(prev@),
                cur@,
                *cfg,
                word_in(filter),
            )
            &&& forall|k: int|
                0 <= k < rows.len() ==> (#[trigger] rows@[k]).down + rows@[k].up <= u64::MAX
                    && rows@[k].session_rx + rows@[k].session_tx <= u64::MAX
        },
{
    let ghost old_map = counter_map(prev@);
    let ghost start = counter_map(session@);
    let ghost want = word_in(filter);
    let mut rows: Vec<IfRow> = Vec::new();
    let mut i: usize = 0;
    while i < cur.len()
        invariant
            i <= cur.len(),
            distinct(cur@),
            distinct(session@),
            per_sec.within(1000),
            old_map == counter_map(prev@),
            start == counter_map(old(session)@),
            want == word_in(filter),
            counter_map(session@) == session_after(start, old_map, cur@.take(i as int), *cfg, want),
            rows_fit(start, old_map, cur@.take(i as int), *cfg, want, per_sec),
            rows.len() == shown_places(old_map, cur@.take(i as int), *cfg, want).len(),
            forall|k: int|
                0 <= k < rows.len() ==> {
                    let p = #[trigger] shown_places(old_map, cur@.take(i as int), *cfg, want)[k];
                    0 <= p < i && is_row(
                        rows@[k],
                        start,
                        cur@[p].iface@,
                        seen(old_map, cur@[p], *cfg, want)->0,
                        per_sec,
                    )
                },
            forall|k: int|
                0 <= k < rows.len() ==> (#[trigger] rows@[k]).down + rows@[k].up <= u64::MAX
                    && rows@[k].session_rx + rows@[k].session_tx <= u64::MAX,
        decreases cur.len() - i,
    {
        let c = &cur[i];
        let ghost before = cur@.take(i as int);
        let ghost after = cur@.take(i + 1);
        let ghost had = rows@;
        proof {
            assert(after.drop_last() =~= before);
            assert(after.last() == *c);
            assert forall|k: int| 0 <= k < before.len() implies (#[trigger] before[k]).iface@
                != c.iface@ by {
                assert(cur@[k].iface@ != cur@[i as int].iface@);
            }
            session_untouched(start, old_map, before, *cfg, want, c.iface@);
        }
        let asked = match filter {
            Some(f) => same_text(f, c.iface.as_str()),
            None => true,
        };
        if asked && !cfg.excluded(c.iface.as_str()) {
            match find_counter(prev, c.iface.as_str()) {
                Some((old_rx, old_tx)) => {
                    let drx = grown(old_rx, c.rx);
                    let dtx = grown(old_tx, c.tx);
                    let (was_rx, was_tx): (u64, u64) = match find_counter(
                        session,
                        c.iface.as_str(),
                    ) {
                        Some(s) => s,
                        None => (0, 0),
                    };
                    let down = to_whole(times(of_int(drx), per_sec), u64::MAX);
                    let up = to_whole(times(of_int(dtx), per_sec), u64::MAX);
                    assert(after[i as int] == *c);
                    assert(seen(old_map, *c, *cfg, want) == Some((drx, dtx)));
                    assert((was_rx, was_tx) == session_of(start, c.iface@));
                    if was_rx as u128 + drx as u128 + was_tx as u128 + dtx as u128 > u64::MAX as u128
                        || down as u128 + up as u128 > u64::MAX as u128 {
                        proof {
                            assert(!row_fits(start, cur@[i as int].iface@, (drx, dtx), per_sec));
                            assert(!rows_fit(start, old_map, cur@, *cfg, want, per_sec));
                        }
                        return None;
                    }
                    put_counter(
                        session,
                        Counter { iface: c.iface.clone(), rx: was_rx + drx, tx: was_tx + dtx },
                    );
                    rows.push(
                        IfRow {
                            iface: c.iface.clone(),
                            down,
                            up,
                            session_rx: was_rx + drx,
                            session_tx: was_tx + dtx,
                        },
                    );
                },
                None => {},
            }
        }
        proof {
            let now = shown_places(old_map, after, *cfg, want);
            let then = shown_places(old_map, before, *cfg, want);
            assert forall|k: int| 0 <= k < rows@.len() implies {
                let p = #[trigger] now[k];
                0 <= p < i + 1 && is_row(
                    rows@[k],
                    start,
                    cur@[p].iface@,
                    seen(old_map, cur@[p], *cfg, want)->0,
                    per_sec,
                )
            } by {
                if k < had.len() {
                    assert(now[k] == then[k]);
                    assert(rows@[k] == had[k]);
                }
            }
            assert forall|k: int| 0 <= k < after.len() implies match seen(
                old_map,
                #[trigger] after[k],
                *cfg,
                want,
            ) {
                Some(m) => row_fits(start, after[k].iface@, m, per_sec),
                None => true,
            } by {
                if k < i {
                    assert(after[k] == before[k]);
                }
            }
        }
        i = i + 1;
    }
    assert(cur@.take(i as int) =~= cur@);
    Some(rows)
}

/// The keys by which the interfaces are ranked: the busiest first.
pub open spec fn rank_keys(rows: Seq<IfRow>) -> Seq<i128> {
    Seq::new(rows.len(), |i: int| (-(rows[i].down + rows[i].up)) as i128)
}

/// Whether two rows show the same.
pub open spec fn same_row(a: IfRow, b: IfRow) -> bool {
    a.iface@ == b.iface@ && a.down == b.down && a.up == b.up && a.session_rx == b.session_rx
        && a.session_tx == b.session_tx
}

/// The interfaces, the busiest first, equally busy ones as they stood.
pub fn ranked(rows: &Vec<IfRow>) -> (r: Vec<IfRow>)
    ensures
        r.len() == rows.len(),
        exists|o: Seq<usize>| #[trigger]
            is_order(o, rank_keys(rows@)) && forall|i: int|
                0 <= i < r.len() ==> same_row(#[trigger] r@[i], rows@[o[i] as int]),
        forall|i: int, j: int|
            0 <= i < j < r.len() ==> r@[i].down + r@[i].up >= r@[j].down + r@[j].up,
{
    let mut keys: Vec<i128> = Vec::new();
    let mut i: usize = 0;
    while i < rows.len()
        invariant
            i <= rows.len(),
            keys@ == rank_keys(rows@).take(i as int),
        decreases rows.len() - i,
    {
        keys.push(-(rows[i].down as i128 + rows[i].up as i128));
        assert(rank_keys(rows@).take(i + 1) =~= rank_keys(rows@).take(i as int).push(
            rank_keys(rows@)[i as int],
        ));
        i = i + 1;
    }
    assert(rank_keys(rows@).take(i as int) =~= rank_keys(rows@));
    let o = order(&keys);
    let mut r: Vec<IfRow> = Vec::new();
    let mut j: usize = 0;
    while j < o.len()
        invariant
            j <= o.len() == rows.len(),
            is_order(o@, rank_keys(rows@)),
            r.len() == j,
            forall|i: int| 0 <= i < r.len() ==> same_row(#[trigger] r@[i], rows@[o@[i] as int]),
        decreases o.len() - j,
    {
        assert(0 <= o@[j as int] < rows@.len());
        let x = &rows[o[j]];
        r.push(
            IfRow {
                iface: x.iface.clone(),
                down: x.down,
                up: x.up,
                session_rx: x.session_rx,
                session_tx: x.session_tx,
            },
        );
        j = j + 1;
    }
    proof {
        let keys = rank_keys(rows@);
        assert forall|i: int, j: int| 0 <= i < j < r@.len() implies r@[i].down + r@[i].up
            >= r@[j].down + r@[j].up by {
            assert(comes_before(keys, o@[i] as int, o@[j] as int));
            assert(same_row(r@[i], rows@[o@[i] as int]) && same_row(r@[j], rows@[o@[j] as int]));
            assert(0 <= o@[i] < keys.len() && 0 <= o@[j] < keys.len());
        }
    }
    r
}

/// The bytes per second of all interfaces, received.
pub open spec fn sum_down(rows: Seq<IfRow>) -> int
    decreases rows.len(),
{
    if rows.len() == 0 {
        0
    } else {
        sum_down(rows.drop_last()) + rows.last().down
    }
}

/// The bytes per second of all interfaces, sent.
pub open spec fn sum_up(rows: Seq<IfRow>) -> int
    decreases rows.len(),
{
    if rows.len() == 0 {
        0
    } else {
        sum_up(rows.drop_last()) + rows.last().up
    }
}

proof fn sums_grow(rows: Seq<IfRow>, n: int)
    requires
        0 <= n <= rows.len(),
    ensures
        0 <= sum_down(rows.take(n)) <= sum_down(rows),
        0 <= sum_up(rows.take(n)) <= sum_up(rows),
    decreases rows.len(),
{
    if n == rows.len() {
        assert(rows.take(n) =~= rows);
        if n > 0 {
            sums_grow(rows.drop_last(), n - 1);
            assert(rows.drop_last().take(n - 1) =~= rows.drop_last());
        }
    } else {
        sums_grow(rows.drop_last(), n);
        assert(rows.drop_last().take(n) =~= rows.take(n));
    }
}

/// The bytes per second of all interfaces; nothing where they do not fit.
pub fn totals(rows: &Vec<IfRow>) -> (r: Option<(u64, u64)>)
    ensures
        r is Some <==> sum_down(rows@) <= u64::MAX && sum_up(rows@) <= u64::MAX,
        r matches Some(t) ==> t.0 == sum_down(rows@) && t.1 == sum_up(rows@),
{
    let mut down: u64 = 0;
    let mut up: u64 = 0;
    let mut i: usize = 0;
    while i < rows.len()
        invariant
            i <= rows.len(),
            down == sum_down(rows@.take(i as int)),
            up == sum_up(rows@.take(i as int)),
        decreases rows.len() - i,
    {
        proof {
            assert(rows@.take(i + 1).drop_last() =~= rows@.take(i as int));
            sums_grow(rows@, i + 1);
        }
        match (down.checked_add(rows[i].down), up.checked_add(rows[i].up)) {
            (Some(d), Some(u)) => {
                down = d;
                up = u;
            },
            _ => {
                return None;
            },
        }
        i = i + 1;
    }
    assert(rows@.take(i as int) =~= rows@);
    Some((down, up))
}

/// The bytes per second of the busiest interface, one where there is none.
pub open spec fn busiest(rows: Seq<IfRow>) -> int
    decreases rows.len(),
{
    if rows.len() == 0 {
        1
    } else {
        let last = rows.last().down + rows.last().up;
        if rows.len() == 1 || last > busiest(rows.drop_last()) {
            last
        } else {
            busiest(rows.drop_last())
        }
    }
}

/// The bytes per second of the busiest interface, one where there is none.
pub fn max_row(rows: &Vec<IfRow>) -> (r: u64)
    requires
        forall|k: int|
            0 <= k < rows.len() ==> (#[trigger] rows@[k]).down + rows@[k].up <= u64::MAX,
    ensures
        r == busiest(rows@),
{
    let mut max: u64 = 1;
    let mut i: usize = 0;
    while i < rows.len()
        invariant
            i <= rows.len(),
            forall|k: int|
                0 <= k < rows.len() ==> (#[trigger] rows@[k]).down + rows@[k].up <= u64::MAX,
            max == busiest(rows@.take(i as int)),
        decreases rows.len() - i,
    {
        assert(rows@.take(i + 1).drop_last() =~= rows@.take(i as int));
        assert(rows@[i as int].down + rows@[i as int].up <= u64::MAX);
        let both = rows[i].down + rows[i].up;
        if i == 0 || both > max {
            max = both;
        }
        i = i + 1;
    }
    assert(rows@.take(i as int) =~= rows@);
    max
}

// ---- shares ----

/// A part of the greatest one in tenths, rounded; none of nothing.
pub open spec fn share_tenths(part: nat, most: nat) -> nat {
    if most == 0 {
        0
    } else {
        at_most(
            rounded(product(quotient(int_double(part), int_double(most)), int_double(10))),
            u64::MAX as nat,
        )
    }
}

/// The bar of a part of the greatest one: ten cells.
pub open spec fn share_text(part: nat, most: nat) -> Seq<char> {
    bar_of(filled(quotient(int_double(share_tenths(part, most)), int_double(10)), 10), 10)
}

/// The bar of a part of the greatest one: ten cells.
pub fn share_bar(part: u64, most: u64) -> (r: String)
    ensures
        r@ == share_text(part as nat, most as nat),
{
    let tenths: u64 = if most == 0 {
        0
    } else {
        let fraction = over(of_int(part), of_int(most));
        to_rounded(times(fraction, of_int(10)), u64::MAX)
    };
    bar(over(of_int(tenths), of_int(10)), 10)
}

/// The cells of an interface in the table: its name, the rates, its share and the bytes
/// since the start.
pub open spec fn row_cells(r: IfRow, most: nat, dec: bool) -> Seq<Seq<char>> {
    seq![
        r.iface@,
        bytes_text(as_signed(r.down), dec) + "/s"@,
        bytes_text(as_signed(r.up), dec) + "/s"@,
        share_text((r.down + r.up) as nat, most),
        bytes_text(as_signed((r.session_rx + r.session_tx) as u64), dec),
    ]
}

/// The cells of an interface in the table.
pub fn cells(r: &IfRow, most: u64, dec: bool) -> (v: Vec<String>)
    requires
        r.down + r.up <= u64::MAX,
        r.session_rx + r.session_tx <= u64::MAX,
    ensures
        texts(v@) == row_cells(*r, most as nat, dec),
{
    let mut down = fmt_bytes(to_signed(r.down), dec);
    down.append("/s");
    let mut up = fmt_bytes(to_signed(r.up), dec);
    up.append("/s");
    let mut v: Vec<String> = Vec::new();
    v.push(r.iface.clone());
    v.push(down);
    v.push(up);
    v.push(share_bar(r.down + r.up, most));
    v.push(fmt_bytes(to_signed(r.session_rx + r.session_tx), dec));
    assert(texts(v@) =~= row_cells(*r, most as nat, dec));
    v
}

// ---- the header ----

/// Bytes received and sent, behind arrows.
pub open spec fn arrows_text(rx: int, tx: int, dec: bool) -> Seq<char> {
    "▼"@ + bytes_text(rx, dec) + " ▲"@ + bytes_text(tx, dec) + " "@
}

/// Bytes received and sent, behind arrows.
pub fn arrows(rx: i64, tx: i64, dec: bool) -> (r: String)
    ensures
        r@ == arrows_text(rx as int, tx as int, dec),
{
    let mut r = String::new();
    r.append("▼");
    r.append(fmt_bytes(rx, dec).as_str());
    r.append(" ▲");
    r.append(fmt_bytes(tx, dec).as_str());
    r.append(" ");
    assert(r@ =~= arrows_text(rx as int, tx as int, dec));
    r
}

/// A rate that is one already, with a space behind it.
pub fn total_rate(bps: u64, dec: bool) -> (r: String)
    ensures
        r@ == rate_text(bps, int_double(1), dec) + " "@,
{
    let mut r = fmt_rate(bps, of_int(1), dec);
    r.append(" ");
    r
}

/// All bytes received and sent since the start.
pub open spec fn session_sum(v: Seq<Counter>) -> (int, int)
    decreases v.len(),
{
    if v.len() == 0 {
        (0, 0)
    } else {
        let before = session_sum(v.drop_last());
        (before.0 + v.last().rx, before.1 + v.last().tx)
    }
}

proof fn session_sum_grows(v: Seq<Counter>, n: int)
    requires
        0 <= n <= v.len(),
    ensures
        0 <= session_sum(v.take(n)).0 <= session_sum(v).0,
        0 <= session_sum(v.take(n)).1 <= session_sum(v).1,
    decreases v.len(),
{
    if n == v.len() {
        assert(v.take(n) =~= v);
        if n > 0 {
            session_sum_grows(v.drop_last(), n - 1);
            assert(v.drop_last().take(n - 1) =~= v.drop_last());
        }
    } else {
        session_sum_grows(v.drop_last(), n);
        assert(v.drop_last().take(n) =~= v.take(n));
    }
}

/// All bytes received and sent since the start; nothing where they do not fit.
pub fn session_total(v: &Vec<Counter>) -> (r: Option<(u64, u64)>)
    ensures
        r is Some <==> session_sum(v@).0 <= u64::MAX && session_sum(v@).1 <= u64::MAX,
        r matches Some(t) ==> (t.0 as int, t.1 as int) == session_sum(v@),
{
    let mut rx: u64 = 0;
    let mut tx: u64 = 0;
    let mut i: usize = 0;
    while i < v.len()
        invariant
            i <= v.len(),
            (rx as int, tx as int) == session_sum(v@.take(i as int)),
        decreases v.len() - i,
    {
        proof {
            assert(v@.take(i + 1).drop_last() =~= v@.take(i as int));
            session_sum_grows(v@, i + 1);
        }
        match (rx.checked_add(v[i].rx), tx.checked_add(v[i].tx)) {
            (Some(a), Some(b)) => {
                rx = a;
                tx = b;
            },
            _ => {
                return None;
            },
        }
        i = i + 1;
    }
    assert(v@.take(i as int) =~= v@);
    Some((rx, tx))
}

// ---- the budget gauge ----

/// How urgent the use of a budget is.
#[derive(Clone, Copy, PartialEq, Eq, Structural, Debug)]
pub enum Level {
    Calm,
    Warning,
    Full,
}

/// A budget in bytes, not cut off to whole ones.
pub open spec fn exact_budget(gb: u64) -> Double {
    product(bits_double(gb), int_double(1_073_741_824))
}

/// The bits of the least number of GiB that is no finite number of bytes: two to the power
/// 994.
pub const BOUNDLESS_BITS: u64 = 0x7e10_0000_0000_0000;

/// Whether a budget in bytes is infinite.
pub open spec fn boundless(gb: u64) -> bool {
    gb >= BOUNDLESS_BITS
}

/// The percent of a budget that are used, in whole ones, at most all of them. Of an
/// infinite budget none are, be the use negative or not.
pub open spec fn percent_used(used: int, gb: u64) -> nat {
    if boundless(gb) {
        0
    } else {
        let frac = quotient(int_double(used as nat), exact_budget(gb));
        if frac.units() >= int_double(1).units() {
            100
        } else {
            at_most(whole(product(frac, int_double(100))), 100)
        }
    }
}

/// The urgency of a percentage.
pub open spec fn level_of(percent: nat) -> Level {
    if percent >= 100 {
        Level::Full
    } else if percent >= 80 {
        Level::Warning
    } else {
        Level::Calm
    }
}

/// A number of GiB without digits behind the point.
pub open spec fn gib_text(gb: u64) -> Seq<char> {
    if gb >= INFINITY_BITS {
        "inf"@
    } else {
        decimal(nearest_int(bits_double(gb)))
    }
}

/// A number of bytes in GiB, with a sign where it is negative.
pub open spec fn used_text(used: int) -> Seq<char> {
    let amount = if used < 0 {
        (-used) as nat
    } else {
        used as nat
    };
    let text = one_place(tenths(quotient(int_double(amount), int_double(1_073_741_824))));
    if used < 0 {
        "-"@ + text
    } else {
        text
    }
}

/// The title of the gauge: the period, the use and the budget in GiB, and the bytes from
/// and to outside.
pub open spec fn gauge_title(
    period: Seq<char>,
    used: int,
    gb: u64,
    wan: int,
    dec: bool,
) -> Seq<char> {
    " "@ + period + " "@ + used_text(used) + "/"@ + gib_text(gb) + " GiB │ WAN "@ + bytes_text(wan, dec) + " "@
}

/// The gauge of a budget.
pub struct BudgetGauge {
    pub title: String,
    pub percent: u16,
    pub level: Level,
}

/// The gauge of a budget; none where the use is negative, unless the budget is infinite.
pub fn budget_gauge(period: &str, used: i64, gb: u64, wan: i64, dec: bool) -> (r: Option<
    BudgetGauge,
>)
    requires
        bits_positive(gb),
    ensures
        r is Some <==> used >= 0 || boundless(gb),
        r matches Some(g) ==> {
            &&& g.title@ == gauge_title(period@, used as int, gb, wan as int, dec)
            &&& g.percent == percent_used(used as int, gb)
            &&& g.level == level_of(g.percent as nat)
            &&& g.percent <= 100
        },
{
    if used < 0 && gb < BOUNDLESS_BITS {
        return None;
    }
    let bytes = magnitude(used);
    let amount = of_int(bytes);
    let percent: u64 = if gb >= BOUNDLESS_BITS {
        0
    } else {
        let frac = over(amount, times(of_bits(gb), of_int(1_073_741_824)));
        if at_least(frac, of_int(1)) {
            100
        } else {
            to_whole(times(frac, of_int(100)), 100)
        }
    };
    let level = if percent >= 100 {
        Level::Full
    } else if percent >= 80 {
        Level::Warning
    } else {
        Level::Calm
    };
    let gib = of_int(1_073_741_824);
    let in_gib = over(amount, gib);
    proof {
        lemma_pow2_pos(unit_bits());
        let o = one();
        let w = in_gib.units();
        assert(w <= 0x1_0000_0000_0000_0000 * o) by (nonlinear_arith)
            requires
                w * (1_073_741_824 * o) <= 2 * (amount.units() * o),
                amount.units() <= 2 * bytes * o,
                0 <= bytes <= 0x8000_0000_0000_0000,
                o > 0,
        {
            assert(2 * (amount.units() * o) <= (4 * bytes * o) * o);
            assert(w * 1_073_741_824 * o <= (4 * bytes * o) * o);
            assert(w * 1_073_741_824 <= 4 * bytes * o);
        }
        assert(w / o < 0x40_0000_0000_0000_0000) by (nonlinear_arith)
            requires
                w <= 0x1_0000_0000_0000_0000 * o,
                o > 0,
        ;
    }
    let mut title = String::new();
    title.append(" ");
    title.append(period);
    title.append(" ");
    if used < 0 {
        title.append("-");
    }
    push_one_place(&mut title, to_tenths(in_gib));
    title.append("/");
    if gb >= INFINITY_BITS {
        title.append("inf");
    } else {
        push_nearest(&mut title, of_bits(gb));
    }
    title.append(" GiB │ WAN ");
    title.append(fmt_bytes(wan, dec).as_str());
    title.append(" ");
    assert(title@ =~= gauge_title(period@, used as int, gb, wan as int, dec));
    Some(BudgetGauge { title, percent: percent as u16, level })
}

/// The bytes from or to outside; nothing where the difference does not fit.
pub fn outside(all: i64, lan: i64) -> (r: Option<i64>)
    ensures
        r is Some <==> fits(all - lan),
        r matches Some(n) ==> n == rest(all as int, lan as int),
{
    match all.checked_sub(lan) {
        Some(d) => if d > 0 {
            Some(d)
        } else {
            Some(0)
        },
        None => None,
    }
}

/// What is shown of the month where no budget is set.
pub open spec fn month_text(
    used: int,
    rx: int,
    tx: int,
    lan_rx: int,
    lan_tx: int,
    dec: bool,
) -> Seq<char> {
    " month "@ + bytes_text(used, dec) + " (▼"@ + bytes_text(rx, dec) + " ▲"@ + bytes_text(tx, dec)
        + ") │ LAN "@ + bytes_text(lan_rx, dec) + "/"@ + bytes_text(lan_tx, dec) + " │ WAN "@
        + bytes_text(rest(rx, lan_rx), dec) + "/"@ + bytes_text(rest(tx, lan_tx), dec)
        + " │ set a budget: `netmeter config set budget_gb 50`"@
}

/// What is shown of the month where no budget is set; nothing where a difference does not
/// fit.
pub fn month_strip(used: i64, rx: i64, tx: i64, lan_rx: i64, lan_tx: i64, dec: bool) -> (r: Option<
    String,
>)
    ensures
        r is Some <==> fits(rx - lan_rx) && fits(tx - lan_tx),
        r matches Some(s) ==> s@ == month_text(
            used as int,
            rx as int,
            tx as int,
            lan_rx as int,
            lan_tx as int,
            dec,
        ),
{
    match (outside(rx, lan_rx), outside(tx, lan_tx)) {
        (Some(wan_rx), Some(wan_tx)) => {
            let mut r = String::new();
            r.append(" month ");
            r.append(fmt_bytes(used, dec).as_str());
            r.append(" (▼");
            r.append(fmt_bytes(rx, dec).as_str());
            r.append(" ▲");
            r.append(fmt_bytes(tx, dec).as_str());
            r.append(") │ LAN ");
            r.append(fmt_bytes(lan_rx, dec).as_str());
            r.append("/");
            r.append(fmt_bytes(lan_tx, dec).as_str());
            r.append(" │ WAN ");
            r.append(fmt_bytes(wan_rx, dec).as_str());
            r.append("/");
            r.append(fmt_bytes(wan_tx, dec).as_str());
            r.append(" │ set a budget: `netmeter config set budget_gb 50`");
            assert(r@ =~= month_text(
                used as int,
                rx as int,
                tx as int,
                lan_rx as int,
                lan_tx as int,
                dec,
            ));
            Some(r)
        },
        _ => None,
    }
}

// ---- history ----

/// A series of bars: a label for each, and the bytes received and sent.
pub struct Hist {
    pub labels: Vec<String>,
    pub down: Vec<u64>,
    pub up: Vec<u64>,
}

/// The keys by which rows are put in order of time.
pub open spec fn time_keys(rows: Seq<Row>) -> Seq<i128> {
    Seq::new(rows.len(), |i: int| rows[i].ts as i128)
}

/// The label of a bar: the day of the month, or the hour, in two digits.
pub open spec fn bar_label(zone: jiff::tz::TimeZone, ts: int, daily: bool) -> Seq<char> {
    let civil = clock(zone, ts);
    zero_padded(
        if daily {
            date_of(civil / 86400).2
        } else {
            civil / 3600 % 24
        },
        2,
    )
}

/// A count that is not negative.
pub open spec fn no_less_than_zero(n: i64) -> int {
    if n < 0 {
        0
    } else {
        n as int
    }
}

/// How many rows are left out so that `n` of them stay.
pub open spec fn left_out(len: nat, n: nat) -> int {
    if len > n {
        len - n
    } else {
        0
    }
}

/// Whether a bar shows a row.
pub open spec fn is_bar(
    label: Seq<char>,
    down: u64,
    up: u64,
    r: Row,
    daily: bool,
    zone: jiff::tz::TimeZone,
) -> bool {
    label == bar_label(zone, r.ts as int, daily) && down == no_less_than_zero(r.rx) && up
        == no_less_than_zero(r.tx)
}

/// Whether the bars are those of the last `n` rows in a given order.
pub open spec fn is_history_in(
    h: Hist,
    rows: Seq<Row>,
    o: Seq<usize>,
    n: nat,
    daily: bool,
    zone: jiff::tz::TimeZone,
) -> bool {
    let skip = left_out(rows.len(), n);
    &&& h.labels@.len() == rows.len() - skip
    &&& h.down@.len() == h.labels@.len()
    &&& h.up@.len() == h.labels@.len()
    &&& forall|i: int|
        0 <= i < h.labels@.len() ==> is_bar(
            (#[trigger] h.labels@[i])@,
            h.down@[i],
            h.up@[i],
            rows[o[skip + i] as int],
            daily,
            zone,
        )
}

/// Whether the bars are those of the last `n` rows in order of time.
pub open spec fn is_history(
    h: Hist,
    rows: Seq<Row>,
    n: nat,
    daily: bool,
    zone: jiff::tz::TimeZone,
) -> bool {
    exists|o: Seq<usize>| #[trigger]
        is_order(o, time_keys(rows)) && is_history_in(h, rows, o, n, daily, zone)
}

/// Whether every row lies in the range of instants.
pub open spec fn in_range(rows: Seq<Row>) -> bool {
    forall|i: int| 0 <= i < rows.len() ==> FIRST_INSTANT <= (#[trigger] rows[i]).ts <= LAST_INSTANT
}

/// The bars of the last `n` rows in order of time; nothing where a row lies outside the
/// range of instants.
pub fn history(rows: &Vec<Row>, n: usize, daily: bool, zone: &jiff::tz::TimeZone) -> (r: Option<
    Hist,
>)
    ensures
        r is Some <==> in_range(rows@),
        r matches Some(h) ==> is_history(h, rows@, n as nat, daily, *zone),
{
    let mut keys: Vec<i128> = Vec::new();
    let mut i: usize = 0;
    while i < rows.len()
        invariant
            i <= rows.len(),
            keys@ == time_keys(rows@).take(i as int),
            forall|k: int|
                0 <= k < i ==> FIRST_INSTANT <= (#[trigger] rows@[k]).ts <= LAST_INSTANT,
        decreases rows.len() - i,
    {
        if rows[i].ts < FIRST_INSTANT || rows[i].ts > LAST_INSTANT {
            return None;
        }
        keys.push(rows[i].ts as i128);
        assert(time_keys(rows@).take(i + 1) =~= time_keys(rows@).take(i as int).push(
            time_keys(rows@)[i as int],
        ));
        i = i + 1;
    }
    assert(time_keys(rows@).take(i as int) =~= time_keys(rows@));
    let o = order(&keys);
    let skip: usize = if rows.len() > n {
        rows.len() - n
    } else {
        0
    };
    let mut labels: Vec<String> = Vec::new();
    let mut down: Vec<u64> = Vec::new();
    let mut up: Vec<u64> = Vec::new();
    let mut j: usize = skip;
    while j < o.len()
        invariant
            skip <= j <= o.len() == rows.len(),
            is_order(o@, time_keys(rows@)),
            in_range(rows@),
            labels.len() == j - skip,
            down.len() == j - skip,
            up.len() == j - skip,
            forall|i: int|
                0 <= i < labels@.len() ==> is_bar(
                    (#[trigger] labels@[i])@,
                    down@[i],
                    up@[i],
                    rows@[o@[skip + i] as int],
                    daily,
                    *zone,
                ),
        decreases o.len() - j,
    {
        assert(0 <= o@[j as int] < rows@.len());
        let r = &rows[o[j]];
        assert(FIRST_INSTANT <= rows@[o@[j as int] as int].ts <= LAST_INSTANT);
        let number: i64 = if daily {
            day_at(r.ts, zone)
        } else {
            hour_at(r.ts, zone)
        };
        let mut label = String::new();
        push_zero_padded(&mut label, number, 2);
        assert(label@ =~= bar_label(*zone, r.ts as int, daily));
        let d: u64 = if r.rx < 0 {
            0
        } else {
            r.rx as u64
        };
        let u: u64 = if r.tx < 0 {
            0
        } else {
            r.tx as u64
        };
        assert(is_bar(label@, d, u, *r, daily, *zone));
        assert(skip + labels@.len() == j);
        labels.push(label);
        down.push(d);
        up.push(u);
        j = j + 1;
    }
    let h = Hist { labels, down, up };
    assert(is_history_in(h, rows@, o@, n as nat, daily, *zone));
    Some(h)
}

/// The span of a bar: a day or an hour.
pub open spec fn bar_unit(daily: bool) -> Unit {
    if daily {
        Unit::Day
    } else {
        Unit::Hour
    }
}

/// The seconds of a bar.
pub open spec fn bar_seconds(daily: bool) -> int {
    if daily {
        86400
    } else {
        3600
    }
}

/// Where the rows of the last `n` bars are looked for, up to now; nothing where a time
/// does not fit.
pub fn history_range(n: usize, daily: bool, now: i64) -> (r: Option<Plan>)
    ensures
        r is Some <==> fits(n * bar_seconds(daily)) && fits(now - n * bar_seconds(daily)) && fits(
            now + 1,
        ),
        r matches Some(p) ==> {
            &&& p.table@ == if daily {
                "daily"@
            } else {
                "hourly"@
            }
            &&& p.from == now - n * bar_seconds(daily)
            &&& p.to == now + 1
        },
{
    let (table, seconds): (&'static str, u64) = if daily {
        ("daily", 86400)
    } else {
        ("hourly", 3600)
    };
    let span = match (n as u64).checked_mul(seconds) {
        Some(s) if s <= i64::MAX as u64 => s as i64,
        _ => {
            return None;
        },
    };
    match (now.checked_sub(span), now.checked_add(1)) {
        (Some(from), Some(to)) => Some(Plan { table, from, to }),
        _ => None,
    }
}

/// The rows without their local bytes, which no bar shows.
pub open spec fn without_local(rows: Seq<Row>) -> Seq<Row> {
    Seq::new(rows.len(), |i: int| Row { lan_rx: 0, lan_tx: 0, ..rows[i] })
}

fn strip_local(rows: &Vec<Row>) -> (r: Vec<Row>)
    ensures
        same_rows(r@, without_local(rows@)),
{
    let mut out: Vec<Row> = Vec::new();
    let mut i: usize = 0;
    while i < rows.len()
        invariant
            i <= rows.len(),
            out.len() == i,
            forall|k: int|
                0 <= k < i ==> (#[trigger] out@[k]).ts == rows@[k].ts && bytes_of(out@[k])
                    == bytes_of(without_local(rows@)[k]),
        decreases rows.len() - i,
    {
        let (ts, rx, tx) = (rows[i].ts, rows[i].rx, rows[i].tx);
        out.push(Row { ts, iface: String::new(), rx, tx, lan_rx: 0, lan_tx: 0 });
        i = i + 1;
    }
    out
}

/// The bars of the last `n` hours or days: those of the rollup where it has any, else
/// those of the raw samples added up. Nothing where that cannot be worked out.
pub fn load_history(
    rolled: &Vec<Row>,
    samples: &Vec<Row>,
    n: usize,
    daily: bool,
    zone: &jiff::tz::TimeZone,
) -> (r: Option<Hist>)
    ensures
        rolled@.len() > 0 ==> {
            &&& r is Some <==> in_range(rolled@)
            &&& r matches Some(h) ==> is_history(h, rolled@, n as nat, daily, *zone)
        },
        rolled@.len() == 0 ==> {
            let unit = bar_unit(daily);
            let rows = without_local(samples@);
            &&& r is Some <==> starts_exist(samples@, *zone, unit) && spans_fit(rows, *zone, unit)
            &&& r matches Some(h) ==> exists|b: Seq<Row>| #[trigger]
                is_bucketed(b, rows, *zone, unit) && is_history(h, b, n as nat, daily, *zone)
        },
{
    if rolled.len() > 0 {
        return history(rolled, n, daily, zone);
    }
    let unit = if daily {
        Unit::Day
    } else {
        Unit::Hour
    };
    let rows = strip_local(samples);
    let ghost plain = without_local(samples@);
    proof {
        same_rows_same_spans(rows@, plain, *zone, unit);
        same_rows_same_spans(plain, rows@, *zone, unit);
        if starts_exist(samples@, *zone, unit) {
            assert forall|i: int| 0 <= i < plain.len() implies start_exists(
                *zone,
                unit,
                (#[trigger] plain[i]).ts as int,
            ) by {
                assert(samples@[i].ts == plain[i].ts);
            }
        }
        if starts_exist(plain, *zone, unit) {
            assert forall|i: int| 0 <= i < samples@.len() implies start_exists(
                *zone,
                unit,
                (#[trigger] samples@[i]).ts as int,
            ) by {
                assert(samples@[i].ts == plain[i].ts);
            }
        }
    }
    match bucket(&rows, unit, zone) {
        Some(b) => {
            proof {
                assert forall|i: int| 0 <= i < b@.len() implies FIRST_INSTANT <= (
                #[trigger] b@[i]).ts <= LAST_INSTANT by {
                    let k = choose|k: int|
                        0 <= k < rows@.len() && start_in(
                            *zone,
                            unit,
                            (#[trigger] rows@[k]).ts as int,
                        ) == b@[i].ts;
                    assert(start_exists(*zone, unit, rows@[k].ts as int));
                }
                same_rows_same_buckets(b@, rows@, plain, *zone, unit);
            }
            assert(in_range(b@));
            let r = history(&b, n, daily, zone);
            assert(is_bucketed(b@, plain, *zone, unit));
            r
        },
        None => None,
    }
}

/// The bytes of all bars.
pub open spec fn hist_sum(v: Seq<u64>) -> int
    decreases v.len(),
{
    if v.len() == 0 {
        0
    } else {
        hist_sum(v.drop_last()) + v.last()
    }
}

proof fn hist_sum_grows(v: Seq<u64>, n: int)
    requires
        0 <= n <= v.len(),
    ensures
        0 <= hist_sum(v.take(n)) <= hist_sum(v),
    decreases v.len(),
{
    if n == v.len() {
        assert(v.take(n) =~= v);
        if n > 0 {
            hist_sum_grows(v.drop_last(), n - 1);
            assert(v.drop_last().take(n - 1) =~= v.drop_last());
        }
    } else {
        hist_sum_grows(v.drop_last(), n);
        assert(v.drop_last().take(n) =~= v.take(n));
    }
}

fn add_up(v: &Vec<u64>) -> (r: Option<u64>)
    ensures
        r is Some <==> hist_sum(v@) <= u64::MAX,
        r matches Some(n) ==> n == hist_sum(v@),
{
    let mut total: u64 = 0;
    let mut i: usize = 0;
    while i < v.len()
        invariant
            i <= v.len(),
            total == hist_sum(v@.take(i as int)),
        decreases v.len() - i,
    {
        proof {
            assert(v@.take(i + 1).drop_last() =~= v@.take(i as int));
            hist_sum_grows(v@, i + 1);
        }
        match total.checked_add(v[i]) {
            Some(n) => {
                total = n;
            },
            None => {
                return None;
            },
        }
        i = i + 1;
    }
    assert(v@.take(i as int) =~= v@);
    Some(total)
}

/// The bytes of all bars, received and sent; nothing where they do not fit.
pub fn sum(h: &Hist) -> (r: Option<u64>)
    ensures
        r is Some <==> hist_sum(h.down@) + hist_sum(h.up@) <= u64::MAX,
        r matches Some(n) ==> n == hist_sum(h.down@) + hist_sum(h.up@),
{
    proof {
        hist_sum_grows(h.down@, 0);
        hist_sum_grows(h.up@, 0);
    }
    match (add_up(&h.down), add_up(&h.up)) {
        (Some(a), Some(b)) => a.checked_add(b),
        _ => None,
    }
}

/// The heights of the bars: received and sent bytes together. Nothing where one does not
/// fit.
pub fn heights(h: &Hist) -> (r: Option<Vec<u64>>)
    requires
        h.down@.len() == h.labels@.len(),
        h.up@.len() == h.labels@.len(),
    ensures
        r is Some <==> forall|i: int|
            0 <= i < h.labels@.len() ==> #[trigger] h.down@[i] + h.up@[i] <= u64::MAX,
        r matches Some(v) ==> v@.len() == h.labels@.len() && forall|i: int|
            0 <= i < v@.len() ==> #[trigger] v@[i] == h.down@[i] + h.up@[i],
{
    let mut v: Vec<u64> = Vec::new();
    let mut i: usize = 0;
    while i < h.labels.len()
        invariant
            i <= h.labels.len(),
            h.down@.len() == h.labels@.len(),
            h.up@.len() == h.labels@.len(),
            v.len() == i,
            forall|k: int| 0 <= k < i ==> #[trigger] h.down@[k] + h.up@[k] <= u64::MAX,
            forall|k: int| 0 <= k < i ==> #[trigger] v@[k] == h.down@[k] + h.up@[k],
        decreases h.labels.len() - i,
    {
        match h.down[i].checked_add(h.up[i]) {
            Some(n) => {
                v.push(n);
            },
            None => {
                assert(h.down@[i as int] + h.up@[i as int] > u64::MAX);
                return None;
            },
        }
        i = i + 1;
    }
    Some(v)
}

/// How wide a bar is and how far from the next, by the number of bars.
pub fn bar_widths(n: usize) -> (r: (u16, u16))
    ensures
        r == if n > 40 {
            (1u16, 0u16)
        } else if n > 24 {
            (2u16, 0u16)
        } else {
            (3u16, 1u16)
        },
{
    if n > 40 {
        (1, 0)
    } else if n > 24 {
        (2, 0)
    } else {
        (3, 1)
    }
}

// ---- what is shown is what was moved ----

/// What a counter grew by and what it was before make what it is; one that fell has not
/// grown.
pub proof fn growth_makes_the_difference(old: u64, new: u64)
    ensures
        new >= old ==> old + growth(old, new) == new,
        new <= old ==> growth(old, new) == 0,
{
}

/// Rates are bytes per second: bytes per look times a thousand over its milliseconds, in
/// whole ones, below two to the 40th.
pub proof fn rates_are_per_second(bytes: u64, interval_ms: u64, limit: nat)
    requires
        0 < bytes < 0x100_0000_0000,
        0 < interval_ms < 0x20_0000_0000_0000,
        1000 * bytes <= limit,
    ensures
        ({
            let r = rate_of(bytes, looks_per_second(interval_ms), limit);
            r * interval_ms <= 1000 * bytes <= (r + 1) * interval_ms
        }),
{
    parts_are_whole_parts(1000, interval_ms as nat, bytes as nat);
    let r = whole(
        product(
            int_double(bytes as nat),
            quotient(int_double(1000), int_double(interval_ms as nat)),
        ),
    );
    assert(r <= 1000 * bytes) by (nonlinear_arith)
        requires
            r * interval_ms <= 1000 * bytes,
            interval_ms >= 1,
    ;
}

/// Nothing that was moved is a rate of nothing, at one look per second each byte is one per
/// second, and at two or four looks there are twice or four times as many.
pub proof fn rates_at_whole_looks(bytes: u64, looks: u64, limit: nat)
    requires
        bytes < 0x100_0000_0000,
        looks == 1 || looks == 2 || looks == 4,
        4 * bytes <= limit,
    ensures
        rate_of(bytes, looks_per_second((1000int / looks as int) as u64), limit) == looks * bytes,
{
    let ms = (1000int / looks as int) as nat;
    assert(looks * ms == 1000);
    whole_quotients_are_exact(looks as nat, ms);
    if bytes == 0 {
        part_of_nothing(looks_per_second(ms as u64));
    } else {
        whole_products_are_exact(bytes as nat, looks as nat);
        let n = bytes as nat * looks as nat;
        int_is_exact(n);
        lemma_pow2_pos(unit_bits());
        let o = one();
        assert((n * o) / o == n) by (nonlinear_arith)
            requires
                o > 0,
        ;
        assert(bytes as nat * looks as nat == looks * bytes) by (nonlinear_arith);
    }
}

/// Every interface that was there before, is not left out and is not another one than asked
/// for is shown, with what its counters grew by; no other is.
pub proof fn every_interface_is_shown(
    prev: Map<Seq<char>, (u64, u64)>,
    cur: Seq<Counter>,
    cfg: Config,
    filter: Option<Seq<char>>,
    i: int,
)
    requires
        0 <= i < cur.len(),
    ensures
        shown_places(prev, cur, cfg, filter).contains(i) <==> {
            &&& prev.contains_key(cur[i].iface@)
            &&& !matches_any(cfg.exclude_ifaces@, cur[i].iface@)
            &&& filter is None || filter == Some(cur[i].iface@)
        },
        shown_places(prev, cur, cfg, filter).contains(i) ==> seen(prev, cur[i], cfg, filter)
            == Some(
            (
                growth(prev[cur[i].iface@].0, cur[i].rx),
                growth(prev[cur[i].iface@].1, cur[i].tx),
            ),
        ),
    decreases cur.len(),
{
    let fewer = cur.drop_last();
    let before = shown_places(prev, fewer, cfg, filter);
    let all = shown_places(prev, cur, cfg, filter);
    places_stand_in_order(prev, fewer, cfg, filter);
    if i < fewer.len() {
        every_interface_is_shown(prev, fewer, cfg, filter, i);
        assert(fewer[i] == cur[i]);
        if before.contains(i) {
            let k = choose|k: int| 0 <= k < before.len() && before[k] == i;
            assert(all[k] == i);
        }
        if all.contains(i) {
            let k = choose|k: int| 0 <= k < all.len() && all[k] == i;
            if k < before.len() {
                assert(before[k] == i);
            }
        }
    } else {
        if before.contains(i) {
            let k = choose|k: int| 0 <= k < before.len() && before[k] == i;
            assert(before[k] < fewer.len());
        }
        if seen(prev, cur.last(), cfg, filter) is Some {
            assert(all[all.len() - 1] == i);
        }
    }
}

/// The interfaces that are shown stand as they were read, each of them once.
pub proof fn places_stand_in_order(
    prev: Map<Seq<char>, (u64, u64)>,
    cur: Seq<Counter>,
    cfg: Config,
    filter: Option<Seq<char>>,
)
    ensures
        forall|k: int|
            0 <= k < shown_places(prev, cur, cfg, filter).len() ==> 0 <= #[trigger] shown_places(
                prev,
                cur,
                cfg,
                filter,
            )[k] < cur.len(),
        forall|k: int, l: int|
            0 <= k < l < shown_places(prev, cur, cfg, filter).len() ==> shown_places(
                prev,
                cur,
                cfg,
                filter,
            )[k] < shown_places(prev, cur, cfg, filter)[l],
    decreases cur.len(),
{
    if cur.len() > 0 {
        let fewer = cur.drop_last();
        let before = shown_places(prev, fewer, cfg, filter);
        let all = shown_places(prev, cur, cfg, filter);
        places_stand_in_order(prev, fewer, cfg, filter);
        assert forall|k: int| 0 <= k < all.len() implies 0 <= #[trigger] all[k] < cur.len() by {
            if k < before.len() {
                assert(all[k] == before[k]);
            }
        }
        assert forall|k: int, l: int| 0 <= k < l < all.len() implies all[k] < all[l] by {
            assert(all[k] == before[k]);
            if l < before.len() {
                assert(all[l] == before[l]);
            }
        }
    }
}

/// After a look the session of an interface that is shown holds what it held and what the
/// counters grew by; that of any other interface is as it was.
pub proof fn sessions_grow_by_what_was_moved(
    session: Map<Seq<char>, (u64, u64)>,
    prev: Map<Seq<char>, (u64, u64)>,
    cur: Seq<Counter>,
    cfg: Config,
    filter: Option<Seq<char>>,
    i: int,
    rx: int,
    tx: int,
)
    requires
        distinct(cur),
        0 <= i < cur.len(),
        prev.contains_key(cur[i].iface@),
        !matches_any(cfg.exclude_ifaces@, cur[i].iface@),
        filter is None || filter == Some(cur[i].iface@),
        ({
            let (was, old) = (session_of(session, cur[i].iface@), prev[cur[i].iface@]);
            &&& old.0 <= cur[i].rx && old.1 <= cur[i].tx
            &&& rx == was.0 + (cur[i].rx - old.0) <= u64::MAX
            &&& tx == was.1 + (cur[i].tx - old.1) <= u64::MAX
        }),
    ensures
        ({
            let after = session_after(session, prev, cur, cfg, filter);
            after.contains_key(cur[i].iface@) && after[cur[i].iface@] == (rx as u64, tx as u64)
        }),
    decreases cur.len(),
{
    let fewer = cur.drop_last();
    let name = cur[i].iface@;
    if i < fewer.len() {
        assert(fewer[i] == cur[i]);
        assert(distinct(fewer)) by {
            assert forall|a: int, b: int| 0 <= a < b < fewer.len() implies fewer[a].iface@
                != fewer[b].iface@ by {
                assert(cur[a].iface@ != cur[b].iface@);
            }
        }
        sessions_grow_by_what_was_moved(session, prev, fewer, cfg, filter, i, rx, tx);
        assert(cur[i].iface@ != cur[cur.len() - 1].iface@);
    } else {
        assert forall|k: int| 0 <= k < fewer.len() implies (#[trigger] fewer[k]).iface@
            != name by {
            assert(cur[k].iface@ != cur[i].iface@);
        }
        session_untouched(session, prev, fewer, cfg, filter, name);
    }
}

/// An interface that was not read, is left out or is not the one asked for keeps its
/// session.
pub proof fn other_sessions_stay(
    session: Map<Seq<char>, (u64, u64)>,
    prev: Map<Seq<char>, (u64, u64)>,
    cur: Seq<Counter>,
    cfg: Config,
    filter: Option<Seq<char>>,
    name: Seq<char>,
)
    requires
        (forall|k: int| 0 <= k < cur.len() ==> (#[trigger] cur[k]).iface@ != name) || matches_any(
            cfg.exclude_ifaces@,
            name,
        ) || !prev.contains_key(name) || (filter is Some && filter != Some(name)),
    ensures
        ({
            let after = session_after(session, prev, cur, cfg, filter);
            &&& after.contains_key(name) <==> session.contains_key(name)
            &&& session.contains_key(name) ==> after[name] == session[name]
        }),
    decreases cur.len(),
{
    if cur.len() > 0 {
        let fewer = cur.drop_last();
        if forall|k: int| 0 <= k < cur.len() ==> (#[trigger] cur[k]).iface@ != name {
            assert forall|k: int| 0 <= k < fewer.len() implies (#[trigger] fewer[k]).iface@
                != name by {
                assert(cur[k].iface@ != name);
            }
            assert(cur[cur.len() - 1].iface@ != name);
        }
        other_sessions_stay(session, prev, fewer, cfg, filter, name);
    }
}

/// The rates of interfaces and of more interfaces add up to those of all.
pub proof fn totals_add_up(a: Seq<IfRow>, b: Seq<IfRow>)
    ensures
        sum_down(a + b) == sum_down(a) + sum_down(b),
        sum_up(a + b) == sum_up(a) + sum_up(b),
    decreases b.len(),
{
    if b.len() == 0 {
        assert(a + b =~= a);
    } else {
        totals_add_up(a, b.drop_last());
        assert((a + b).drop_last() =~= a + b.drop_last());
        assert((a + b).last() == b.last());
    }
}

/// The rate of one interface is its own.
pub proof fn one_total_is_its_own(r: IfRow)
    ensures
        sum_down(seq![r]) == r.down,
        sum_up(seq![r]) == r.up,
        busiest(seq![r]) == r.down + r.up,
{
    assert(seq![r].drop_last() =~= Seq::empty());
    assert(sum_down(Seq::empty()) == 0 && sum_up(Seq::empty()) == 0);
}

/// No interface is busier than the busiest, which is one of them.
pub proof fn the_busiest_is_the_greatest(rows: Seq<IfRow>)
    ensures
        forall|i: int| 0 <= i < rows.len() ==> #[trigger] rows[i].down + rows[i].up <= busiest(rows),
        rows.len() > 0 ==> exists|i: int|
            0 <= i < rows.len() && #[trigger] rows[i].down + rows[i].up == busiest(rows),
    decreases rows.len(),
{
    if rows.len() > 0 {
        let fewer = rows.drop_last();
        let last = rows.len() - 1;
        the_busiest_is_the_greatest(fewer);
        assert forall|i: int| 0 <= i < rows.len() implies #[trigger] rows[i].down + rows[i].up
            <= busiest(rows) by {
            if i < last {
                assert(fewer[i].down + fewer[i].up <= busiest(fewer));
            }
        }
        assert(rows[last] == rows.last());
        if busiest(rows) == rows[last].down + rows[last].up {
            assert(rows[last].down + rows[last].up == busiest(rows));
        } else {
            let i = choose|i: int|
                0 <= i < fewer.len() && #[trigger] fewer[i].down + fewer[i].up == busiest(fewer);
            assert(rows[i].down + rows[i].up == busiest(rows));
        }
    }
}

/// The bytes of sessions and of more sessions add up to those of all, received and sent
/// apart.
pub proof fn sessions_add_up(a: Seq<Counter>, b: Seq<Counter>)
    ensures
        session_sum(a + b).0 == session_sum(a).0 + session_sum(b).0,
        session_sum(a + b).1 == session_sum(a).1 + session_sum(b).1,
    decreases b.len(),
{
    if b.len() == 0 {
        assert(a + b =~= a);
    } else {
        sessions_add_up(a, b.drop_last());
        assert((a + b).drop_last() =~= a + b.drop_last());
        assert((a + b).last() == b.last());
    }
}

/// One session is its own bytes.
pub proof fn one_session_is_its_own(c: Counter)
    ensures
        session_sum(seq![c]) == (c.rx as int, c.tx as int),
{
    assert(seq![c].drop_last() =~= Seq::empty());
    assert(session_sum(Seq::empty()) == (0int, 0int));
}

/// The bytes of bars and of more bars add up to those of all, and one bar is its own.
pub proof fn bars_add_up(a: Seq<u64>, b: Seq<u64>, n: u64)
    ensures
        hist_sum(a + b) == hist_sum(a) + hist_sum(b),
        hist_sum(seq![n]) == n,
    decreases b.len(),
{
    assert(seq![n].drop_last() =~= Seq::empty());
    assert(hist_sum(Seq::empty()) == 0);
    if b.len() == 0 {
        assert(a + b =~= a);
    } else {
        bars_add_up(a, b.drop_last(), n);
        assert((a + b).drop_last() =~= a + b.drop_last());
        assert((a + b).last() == b.last());
    }
}

/// The cells of an interface are its name, its rates received and sent, its share and its
/// session with both directions, in this order.
pub proof fn cells_stand_in_order(r: IfRow, most: nat, dec: bool)
    requires
        r.down <= i64::MAX,
        r.up <= i64::MAX,
        r.session_rx + r.session_tx <= i64::MAX,
    ensures
        ({
            let c = row_cells(r, most, dec);
            &&& c.len() == 5
            &&& c[0] == r.iface@
            &&& c[1] == bytes_text(r.down as int, dec) + "/s"@
            &&& c[2] == bytes_text(r.up as int, dec) + "/s"@
            &&& c[3] == share_text((r.down + r.up) as nat, most)
            &&& c[4] == bytes_text(r.session_rx + r.session_tx, dec)
        }),
{
}

/// A share is as many tenths of the greatest one as are nearest to it.
pub proof fn shares_are_the_nearest_tenths(part: nat, most: nat)
    requires
        0 < part <= most < 0x1000_0000_0000,
    ensures
        ({
            let t = share_tenths(part, most);
            &&& t <= 10
            &&& 2 * (t * most) <= 20 * part + most
            &&& 20 * part <= 2 * (t * most) + most
        }),
{
    nearest_parts_are_near(part, most, 10);
    let t = rounded(product(quotient(int_double(part), int_double(most)), int_double(10)));
    assert(t <= 10) by (nonlinear_arith)
        requires
            2 * (t * most) <= 2 * (part * 10) + most,
            part <= most,
            most > 0,
    {
        if t >= 11 {
            assert(t * most >= 11 * most);
        }
    }
}

/// Of nothing, and of a greatest one that is nothing, no tenths are shown; the greatest one
/// itself is all of ten.
pub proof fn the_greatest_share_is_full(most: nat)
    requires
        most < 0x20_0000_0000_0000,
    ensures
        share_tenths(0, most) == 0,
        0 < most ==> share_tenths(most, most) == 10,
        forall|part: nat| #[trigger] share_tenths(part, 0) == 0,
{
    if most > 0 {
        nothing_is_no_part(int_double(most), int_double(10));
        whole_quotients_are_exact(1, most);
        assert(1 * most == most);
        all_of_ten_is_ten();
    }
}

/// The urgency rises at eighty and at a hundred percent.
pub proof fn levels_rise_with_the_use(percent: nat)
    ensures
        percent < 80 <==> level_of(percent) == Level::Calm,
        80 <= percent < 100 <==> level_of(percent) == Level::Warning,
        percent >= 100 <==> level_of(percent) == Level::Full,
{
}

/// Of a budget of whole GiB as many percent are used as go into the use, in whole ones; all
/// of them where the budget is used up.
pub proof fn percent_of_whole_budgets(used: nat, gb: u64, gib: nat)
    requires
        gb < BOUNDLESS_BITS,
        0 < gib < 0x40_0000,
        bits_double(gb) == int_double(gib),
        used < 0x400_0000_0000,
    ensures
        used >= gib * 1_073_741_824 ==> percent_used(used as int, gb) == 100,
        used == 0 ==> percent_used(used as int, gb) == 0,
        0 < used < gib * 1_073_741_824 ==> ({
            let r = percent_used(used as int, gb);
            r * (gib * 1_073_741_824) <= 100 * used <= (r + 1) * (gib * 1_073_741_824)
        }),
{
    let budget = gib * 1_073_741_824;
    whole_products_are_exact(gib, 1_073_741_824);
    quotient_reaches_one(used, budget);
    one_is_exact();
    if used == 0 {
        nothing_is_no_part(int_double(budget), int_double(100));
    } else if used < budget {
        parts_are_whole_parts(used, budget, 100);
        let r = whole(
            product(quotient(int_double(used), int_double(budget)), int_double(100)),
        );
        assert(r < 100) by (nonlinear_arith)
            requires
                r * budget <= used * 100,
                used < budget,
        {
            if r >= 100 {
                assert(r * budget >= 100 * budget);
            }
        }
    }
}

/// What is told of the month: the use, the bytes received and sent, the local ones, and
/// those from and to outside, which make all of them with the local ones, or are none where
/// more is local than there is.
pub proof fn the_month_tells_local_and_outside_bytes(
    used: int,
    rx: int,
    tx: int,
    lan_rx: int,
    lan_tx: int,
    wan_rx: int,
    wan_tx: int,
    dec: bool,
)
    requires
        lan_rx <= rx ==> lan_rx + wan_rx == rx,
        lan_tx <= tx ==> lan_tx + wan_tx == tx,
        lan_rx > rx ==> wan_rx == 0,
        lan_tx > tx ==> wan_tx == 0,
    ensures
        month_text(used, rx, tx, lan_rx, lan_tx, dec) == " month "@ + bytes_text(used, dec)
            + " (▼"@ + bytes_text(rx, dec) + " ▲"@ + bytes_text(tx, dec) + ") │ LAN "@
            + bytes_text(lan_rx, dec) + "/"@ + bytes_text(lan_tx, dec) + " │ WAN "@ + bytes_text(
            wan_rx,
            dec,
        ) + "/"@ + bytes_text(wan_tx, dec)
            + " │ set a budget: `netmeter config set budget_gb 50`"@,
{
}

/// The history shows as many bars as there are rows, at most `n`, one for each of the last
/// rows: in order of time, and no row that is left out is later than one that is shown. A
/// bar shows the bytes of its row, received and sent.
#[verifier::spinoff_prover]
pub proof fn the_last_rows_are_shown(
    h: Hist,
    rows: Seq<Row>,
    places: Seq<usize>,
    n: nat,
    daily: bool,
    zone: jiff::tz::TimeZone,
)
    requires
        is_order(places, time_keys(rows)),
        is_history_in(h, rows, places, n, daily, zone),
    ensures
        ({
            let bars = h.labels@.len() as int;
            let first = rows.len() - bars;
            &&& bars <= n
            &&& bars == n || bars == rows.len()
            &&& places.no_duplicates()
            &&& forall|i: int, j: int|
                first <= i < j < rows.len() ==> rows[#[trigger] places[i] as int].ts
                    <= rows[#[trigger] places[j] as int].ts
            &&& forall|i: int, p: int|
                first <= i < rows.len() && 0 <= p < rows.len() && !places.skip(first).contains(
                    p as usize,
                ) ==> (#[trigger] rows[p]).ts <= rows[#[trigger] places[i] as int].ts
            &&& forall|i: int|
                0 <= i < bars ==> {
                    let row = rows[#[trigger] places[first + i] as int];
                    &&& row.rx >= 0 ==> h.down@[i] == row.rx
                    &&& row.tx >= 0 ==> h.up@[i] == row.tx
                    &&& row.rx < 0 ==> h.down@[i] == 0
                    &&& row.tx < 0 ==> h.up@[i] == 0
                    &&& daily ==> h.labels@[i]@ == zero_padded(
                        date_of(clock(zone, row.ts as int) / 86400).2,
                        2,
                    )
                    &&& !daily ==> h.labels@[i]@ == zero_padded(
                        clock(zone, row.ts as int) / 3600 % 24,
                        2,
                    )
                }
        }),
{
    let bars = h.labels@.len() as int;
    let first = rows.len() - bars;
    let keys = time_keys(rows);
    assert(places.no_duplicates()) by {
        assert forall|i: int, j: int| 0 <= i < j < places.len() implies places[i] != places[j] by {
            assert(comes_before(keys, places[i] as int, places[j] as int));
        }
    }
    assert forall|i: int, j: int| 0 <= i < j < rows.len() implies rows[#[trigger] places[
        i
    ] as int].ts <= rows[#[trigger] places[j] as int].ts by {
        assert(comes_before(keys, places[i] as int, places[j] as int));
    }
    assert forall|i: int, p: int|
        first <= i < rows.len() && 0 <= p < rows.len() && !places.skip(first).contains(
            p as usize,
        ) implies (#[trigger] rows[p]).ts <= rows[#[trigger] places[i] as int].ts by {
        order_names_every_place(places, keys, p);
        let j = choose|j: int| 0 <= j < places.len() && #[trigger] places[j] == p;
        if j >= first {
            assert(places.skip(first)[j - first] == p as usize);
        }
    }
    assert forall|i: int| 0 <= i < bars implies ({
        let row = rows[#[trigger] places[first + i] as int];
        &&& row.rx >= 0 ==> h.down@[i] == row.rx
        &&& row.tx >= 0 ==> h.up@[i] == row.tx
        &&& row.rx < 0 ==> h.down@[i] == 0
        &&& row.tx < 0 ==> h.up@[i] == 0
        &&& daily ==> h.labels@[i]@ == zero_padded(
            date_of(clock(zone, row.ts as int) / 86400).2,
            2,
        )
        &&& !daily ==> h.labels@[i]@ == zero_padded(clock(zone, row.ts as int) / 3600 % 24, 2)
    }) by {
        assert(is_bar(
            h.labels@[i]@,
            h.down@[i],
            h.up@[i],
            rows[places[first + i] as int],
            daily,
            zone,
        ));
    }
}

/// The local rates that are told are those of what both counters grew by, received first.
pub proof fn local_rates_are_told(
    was: Seq<char>,
    prev: (u64, u64),
    rx: u64,
    tx: u64,
    exists_table: bool,
    per_sec: Double,
    dec: bool,
)
    requires
        prev.0 + rx <= u64::MAX,
        prev.1 + tx <= u64::MAX,
    ensures
        lan_text(
            was,
            Some(prev),
            Some(((prev.0 + rx) as u64, (prev.1 + tx) as u64)),
            exists_table,
            per_sec,
            dec,
        ) == "+"@ + rate_text(rx, per_sec, dec) + "/+"@ + rate_text(tx, per_sec, dec) + "B"@,
        lan_text(was, None, Some(prev), true, per_sec, dec) == was,
        lan_text(was, Some(prev), None, true, per_sec, dec) == was,
        lan_text(was, None, None, true, per_sec, dec) == was,
{
}

/// A use of whole GiB is told with a zero behind the point, and a minus before it where it
/// is negative; a budget of whole GiB is told as it is.
pub proof fn whole_gib_are_told_whole(k: nat, gb: u64)
    requires
        0 < k < 0x40_0000,
        gb < INFINITY_BITS,
        bits_double(gb) == int_double(k),
    ensures
        used_text((k * 1_073_741_824) as int) == decimal(k) + seq!['.', '0'],
        used_text(-(k * 1_073_741_824)) == seq!['-'] + decimal(k) + seq!['.', '0'],
        gib_text(gb) == decimal(k),
{
    whole_quotients_are_exact(k, 1_073_741_824);
    integers_are_not_rounded(k);
    reveal_strlit(".");
    reveal_strlit("-");
    let n = 10 * k;
    assert(n / 10 == k && n % 10 == 0);
    assert(one_place(n) =~= decimal(k) + seq!['.', '0']);
    assert(used_text(-(k * 1_073_741_824)) =~= seq!['-'] + decimal(k) + seq!['.', '0']);
}

// ---- what keys do ----

/// The controls after a key.
pub open spec fn after_key(c: Controls, key: Key) -> Controls {
    let (shorter, longer) = (c.interval_ms - 250, c.interval_ms + 250);
    match key {
        Key::Char('u') => Controls { dec: !c.dec, ..c },
        Key::Char('+') | Key::Char('=') => Controls {
            interval_ms: (if shorter < 250 {
                250
            } else {
                shorter
            }) as u64,
            ..c
        },
        Key::Char('-') => Controls {
            interval_ms: (if longer > 5000 {
                5000
            } else {
                longer
            }) as u64,
            ..c
        },
        _ => c,
    }
}

/// The keys for sooner and later undo each other, but at the ends of the range, which they
/// never leave; pressing for other units twice changes nothing. Each of these keys leaves
/// the rest as it is.
pub proof fn keys_undo_each_other(c: Controls, key: Key)
    requires
        c.valid(),
    ensures
        after_key(c, key).valid(),
        c.interval_ms >= 500 ==> after_key(after_key(c, Key::Char('+')), Key::Char('-')) == c,
        c.interval_ms <= 4750 ==> after_key(after_key(c, Key::Char('-')), Key::Char('+')) == c,
        after_key(c, Key::Char('=')) == after_key(c, Key::Char('+')),
        after_key(after_key(c, Key::Char('u')), Key::Char('u')) == c,
        after_key(c, Key::Char('u')) != c,
        c.interval_ms > 250 ==> after_key(c, Key::Char('+')).interval_ms < c.interval_ms,
        c.interval_ms < 5000 ==> after_key(c, Key::Char('-')).interval_ms > c.interval_ms,
        key != Key::Char('u') ==> after_key(c, key).dec == c.dec,
        key != Key::Char('+') && key != Key::Char('=') && key != Key::Char('-') ==> after_key(
            c,
            key,
        ).interval_ms == c.interval_ms,
{
}

/// Whether a look shows these rows, and leaves the sessions as they are after it.
pub open spec fn is_look(
    rows: Seq<IfRow>,
    session: Map<Seq<char>, (u64, u64)>,
    after: Map<Seq<char>, (u64, u64)>,
    prev: Map<Seq<char>, (u64, u64)>,
    cur: Seq<Counter>,
    cfg: Config,
    filter: Option<Seq<char>>,
    per_sec: Double,
) -> bool {
    let places = shown_places(prev, cur, cfg, filter);
    &&& rows.len() == places.len()
    &&& forall|k: int|
        0 <= k < rows.len() ==> {
            let c = cur[#[trigger] places[k]];
            is_row(rows[k], session, c.iface@, seen(prev, c, cfg, filter)->0, per_sec)
        }
    &&& after == session_after(session, prev, cur, cfg, filter)
}

/// Every interface that was there before, is not left out and is not another one than asked
/// for has a row: with the rates of what its counters grew by, and with what it moved
/// before and since, which is its session from then on.
#[verifier::spinoff_prover]
pub proof fn every_interface_has_its_row(
    rows: Seq<IfRow>,
    session: Map<Seq<char>, (u64, u64)>,
    after: Map<Seq<char>, (u64, u64)>,
    prev: Map<Seq<char>, (u64, u64)>,
    cur: Seq<Counter>,
    cfg: Config,
    filter: Option<Seq<char>>,
    per_sec: Double,
    i: int,
)
    requires
        is_look(rows, session, after, prev, cur, cfg, filter, per_sec),
        distinct(cur),
        0 <= i < cur.len(),
        prev.contains_key(cur[i].iface@),
        !matches_any(cfg.exclude_ifaces@, cur[i].iface@),
        filter is None || filter == Some(cur[i].iface@),
        prev[cur[i].iface@].0 <= cur[i].rx,
        prev[cur[i].iface@].1 <= cur[i].tx,
    ensures
        exists|k: int|
            {
                let (old, name) = (prev[cur[i].iface@], cur[i].iface@);
                let (rx, tx) = ((cur[i].rx - old.0) as u64, (cur[i].tx - old.1) as u64);
                let was = if session.contains_key(name) {
                    session[name]
                } else {
                    (0, 0)
                };
                &&& 0 <= k < rows.len()
                &&& (#[trigger] rows[k]).iface@ == name
                &&& rows[k].down == rate_of(rx, per_sec, u64::MAX as nat)
                &&& rows[k].up == rate_of(tx, per_sec, u64::MAX as nat)
                &&& rows[k].session_rx == was.0 + rx
                &&& rows[k].session_tx == was.1 + tx
                &&& after.contains_key(name)
                &&& after[name] == (rows[k].session_rx, rows[k].session_tx)
            },
{
    let places = shown_places(prev, cur, cfg, filter);
    every_interface_is_shown(prev, cur, cfg, filter, i);
    let k = choose|k: int| 0 <= k < places.len() && places[k] == i;
    assert(is_row(
        rows[k],
        session,
        cur[places[k]].iface@,
        seen(prev, cur[places[k]], cfg, filter)->0,
        per_sec,
    ));
    sessions_grow_by_what_was_moved(
        session,
        prev,
        cur,
        cfg,
        filter,
        i,
        rows[k].session_rx as int,
        rows[k].session_tx as int,
    );
    assert(rows[k].iface@ == cur[i].iface@);
}

/// No interface has a row that was not read, is left out, is not the one asked for, or was
/// not there before; and none has two.
pub proof fn only_shown_interfaces_have_rows(
    rows: Seq<IfRow>,
    session: Map<Seq<char>, (u64, u64)>,
    after: Map<Seq<char>, (u64, u64)>,
    prev: Map<Seq<char>, (u64, u64)>,
    cur: Seq<Counter>,
    cfg: Config,
    filter: Option<Seq<char>>,
    per_sec: Double,
    k: int,
)
    requires
        is_look(rows, session, after, prev, cur, cfg, filter, per_sec),
        0 <= k < rows.len(),
    ensures
        rows.len() <= cur.len(),
        prev.contains_key(rows[k].iface@),
        !matches_any(cfg.exclude_ifaces@, rows[k].iface@),
        filter is None || filter == Some(rows[k].iface@),
        exists|i: int| 0 <= i < cur.len() && (#[trigger] cur[i]).iface@ == rows[k].iface@,
{
    let places = shown_places(prev, cur, cfg, filter);
    places_stand_in_order(prev, cur, cfg, filter);
    few_places(prev, cur, cfg, filter);
    let i = places[k];
    assert(places.contains(i));
    every_interface_is_shown(prev, cur, cfg, filter, i);
    assert(cur[i].iface@ == rows[k].iface@);
}

proof fn few_places(
    prev: Map<Seq<char>, (u64, u64)>,
    cur: Seq<Counter>,
    cfg: Config,
    filter: Option<Seq<char>>,
)
    ensures
        shown_places(prev, cur, cfg, filter).len() <= cur.len(),
    decreases cur.len(),
{
    if cur.len() > 0 {
        few_places(prev, cur.drop_last(), cfg, filter);
    }
}

/// Bytes per second that are such already are told as they are.
pub proof fn rates_per_second_are_told_as_they_are(bytes: u64, dec: bool)
    requires
        bytes < 0x20_0000_0000_0000,
    ensures
        rate_text(bytes, int_double(1), dec) == bytes_text(bytes as int, dec) + seq!['/', 's'],
{
    reveal_strlit("/s");
    assert("/s"@ =~= seq!['/', 's']);
    if bytes == 0 {
        part_of_nothing(int_double(1));
    } else {
        assert(bytes as nat * 1 == bytes);
        whole_products_are_exact(bytes as nat, 1);
        integers_are_not_rounded(bytes as nat);
    }
}

/// What no bar shows is left out, and nothing else: rows without their local bytes have the
/// same times and bytes.
pub proof fn rows_keep_what_bars_show(rows: Seq<Row>, i: int)
    requires
        0 <= i < rows.len(),
    ensures
        without_local(rows).len() == rows.len(),
        without_local(rows)[i].ts == rows[i].ts,
        without_local(rows)[i].rx == rows[i].rx,
        without_local(rows)[i].tx == rows[i].tx,
{
}

/// The title of a gauge tells its period, then the use and the budget with a stroke between
/// them, and the bytes from and to outside at its end.
pub proof fn gauges_tell_use_and_budget(
    period: Seq<char>,
    used: int,
    gb: u64,
    wan: int,
    dec: bool,
)
    ensures
        ({
            let s = gauge_title(period, used, gb, wan, dec);
            let (u, b, w) = (used_text(used), gib_text(gb), bytes_text(wan, dec));
            let at = period.len() as int + 2;
            &&& s.subrange(1, 1 + period.len() as int) == period
            &&& s.subrange(at, at + u.len()) == u
            &&& s[at + u.len()] == '/'
            &&& s.subrange(at + u.len() + 1, at + u.len() + 1 + b.len()) == b
            &&& s.subrange(s.len() - 1 - w.len(), s.len() - 1) == w
        }),
{
    reveal_strlit(" ");
    reveal_strlit("/");
    let s = gauge_title(period, used, gb, wan, dec);
    let (u, b, w) = (used_text(used), gib_text(gb), bytes_text(wan, dec));
    let at = period.len() as int + 2;
    assert(s.subrange(1, 1 + period.len() as int) =~= period);
    assert(s.subrange(at, at + u.len()) =~= u);
    assert(s.subrange(at + u.len() + 1, at + u.len() + 1 + b.len()) =~= b);
    assert(s.subrange(s.len() - 1 - w.len(), s.len() - 1) =~= w);
}

/// Every interface with ordinary counts can be shown, at one look per second.
pub proof fn ordinary_interfaces_are_shown(
    session: Map<Seq<char>, (u64, u64)>,
    name: Seq<char>,
    moved: (u64, u64),
)
    requires
        session_of(session, name).0 < 0x4000_0000_0000_0000,
        session_of(session, name).1 < 0x4000_0000_0000_0000,
        moved.0 < 0x100_0000_0000,
        moved.1 < 0x100_0000_0000,
    ensures
        row_fits(session, name, moved, looks_per_second(1000)),
        session_of(Map::empty(), name) == (0u64, 0u64),
        session.contains_key(name) ==> session_of(session, name) == session[name],
{
    rates_at_whole_looks(moved.0, 1, u64::MAX as nat);
    rates_at_whole_looks(moved.1, 1, u64::MAX as nat);
}

/// The header tells the bytes received before those sent.
pub proof fn arrows_point_at_their_bytes(rx: int, tx: int, dec: bool)
    ensures
        ({
            let s = arrows_text(rx, tx, dec);
            let (a, b) = (bytes_text(rx, dec), bytes_text(tx, dec));
            &&& s[0] == '▼'
            &&& s.subrange(1, 1 + a.len() as int) == a
            &&& s[a.len() as int + 2] == '▲'
            &&& s.subrange(a.len() as int + 3, a.len() as int + 3 + b.len()) == b
        }),
{
    reveal_strlit("▼");
    reveal_strlit(" ▲");
    reveal_strlit(" ");
    let s = arrows_text(rx, tx, dec);
    let (a, b) = (bytes_text(rx, dec), bytes_text(tx, dec));
    assert(s.subrange(1, 1 + a.len() as int) =~= a);
    assert(s.subrange(a.len() as int + 3, a.len() as int + 3 + b.len()) =~= b);
}

} // verus!
