//! The daemon: counter differences, samples, budgets and retention.
use crate::capture::{counter_map, Counter};
use crate::config::{matches_any, Config};
use crate::db::{adverb, fits, lan_and_wan_make_the_total, period_adverb, rest, sum_all, Row};
use crate::double::{
    a_quarter_more_is_exact, at_least, eight_tenths_below_one, int_double, of_int, one_is_exact,
    over, part_of_nothing, parts_are_whole_parts, product, quotient, quotient_reaches_four_fifths,
    quotient_reaches_one, times, to_whole, whole, whole_part, whole_products_are_exact,
    whole_quotients_are_exact, Double,
};
use crate::text::{
    chars_of, decimal, integers_are_read_back, numbers_are_read_back, only_digits_are_numbers,
    only_white_space_is_trimmed, parse_signed, parse_unsigned, push_signed, same_text,
    signed_decimal, signed_value, trim, trimmed, unsigned_value, visible_characters_are_no_space,
};
use vstd::prelude::*;
use vstd::string::*;

verus! {

// ---- counter differences ----

/// The bytes counted between two readings of a counter, and whether they were thrown
/// away.
///
/// A counter that fell below one mebibyte was reset, and counts from zero, unless it
/// stood within one tick of the end of 32 bits. Any other counter that fell has wrapped
/// round, at 32 bits if it stood there, else at 64. More than a tick can carry is thrown
/// away.
pub open spec fn counted(old: u64, new: u64, max: u64) -> (int, bool) {
    let near_wrap = old < 0x1_0000_0000 && old + max >= 0x1_0000_0000;
    if new < old && new < 1024 * 1024 && !near_wrap {
        (new as int, false)
    } else {
        let d = if new >= old {
            new - old
        } else if old > 0x1_0000_0000 {
            0x1_0000_0000_0000_0000 - old + new
        } else {
            0x1_0000_0000 - old + new
        };
        if d > max {
            (0, true)
        } else {
            (d, false)
        }
    }
}

/// The bytes counted between two readings of a counter, and whether they were thrown
/// away.
pub fn delta(old: u64, new: u64, max_bytes_per_tick: u64) -> (r: (u64, bool))
    ensures
        (r.0 as int, r.1) == counted(old, new, max_bytes_per_tick),
{
    let wrap: u64 = 0x1_0000_0000;
    let near_wrap = old < wrap && (max_bytes_per_tick >= wrap || old >= wrap - max_bytes_per_tick);
    if new < old && new < 1024 * 1024 && !near_wrap {
        return (new, false);
    }
    let d = if new >= old {
        new - old
    } else if old > wrap {
        u64::MAX - old + new + 1
    } else {
        wrap - old + new
    };
    if d > max_bytes_per_tick {
        (0, true)
    } else {
        (d, false)
    }
}

/// A counter that grew by no more than a tick can carry counts just what it grew by.
pub proof fn growth_counts_exactly(old: u64, new: u64, max: u64)
    requires
        old <= new,
        new - old <= max,
    ensures
        counted(old, new, max) == (new - old, false),
{
}

/// No more is ever counted than a tick can carry, or than a counter can show that was
/// just reset; and what is thrown away counts for nothing.
pub proof fn no_phantom_bytes(old: u64, new: u64, max: u64)
    ensures
        counted(old, new, max).0 <= max || counted(old, new, max).0 < 1024 * 1024,
        counted(old, new, max).1 ==> counted(old, new, max).0 == 0,
        0 <= counted(old, new, max).0,
{
}

/// A counter that grew by more than a tick can carry is thrown away.
pub proof fn a_leap_is_thrown_away(old: u64, new: u64, max: u64)
    requires
        new - old > max,
    ensures
        counted(old, new, max) == (0int, true),
{
}

/// A counter of 32 bits that runs over its end within a tick goes on counting: just the
/// bytes that went by are counted.
pub proof fn a_wrap_at_32_bits_loses_nothing(old: u64, moved: int, new: u64, max: u64)
    requires
        old < 0x1_0000_0000,
        0 < moved <= max,
        moved < 0x1_0000_0000,
        old + moved >= 0x1_0000_0000,
        new == old + moved - 0x1_0000_0000,
    ensures
        counted(old, new, max) == (moved, false),
{
}

/// So does a counter of 64 bits, unless it then looks like one that was reset.
pub proof fn a_wrap_at_64_bits_loses_nothing(old: u64, moved: int, new: u64, max: u64)
    requires
        old > 0x1_0000_0000,
        0 < moved <= max,
        old + moved >= 0x1_0000_0000_0000_0000,
        new == old + moved - 0x1_0000_0000_0000_0000,
        new >= 0x10_0000,
    ensures
        counted(old, new, max) == (moved, false),
{
}

/// A counter that fell below a mebibyte, from where it could not have wrapped, was reset:
/// what it shows was counted since.
pub proof fn a_reset_counts_from_zero(old: u64, new: u64, max: u64)
    requires
        new < old,
        new < 0x10_0000,
        old >= 0x1_0000_0000 || old + max < 0x1_0000_0000,
    ensures
        counted(old, new, max) == (new as int, false),
{
}

/// The bytes counted over a run of readings.
pub open spec fn counted_over(readings: Seq<u64>, max: u64) -> int
    decreases readings.len(),
{
    if readings.len() <= 1 {
        0
    } else {
        counted_over(readings.drop_last(), max) + counted(
            readings[readings.len() - 2],
            readings.last(),
            max,
        ).0
    }
}

/// Over a run of readings that never fall, and never grow by more than a tick can carry,
/// just the growth from the first to the last is counted.
pub proof fn steady_growth_is_counted(readings: Seq<u64>, max: u64)
    requires
        readings.len() > 0,
        forall|i: int|
            0 < i < readings.len() ==> readings[i - 1] <= #[trigger] readings[i] && readings[i]
                - readings[i - 1] <= max,
    ensures
        counted_over(readings, max) == readings.last() - readings[0],
    decreases readings.len(),
{
    if readings.len() > 1 {
        let before = readings.drop_last();
        assert forall|i: int| 0 < i < before.len() implies before[i - 1] <= #[trigger] before[i]
            && before[i] - before[i - 1] <= max by {
            assert(before[i] == readings[i]);
        }
        steady_growth_is_counted(before, max);
        assert(readings[readings.len() - 1] - readings[readings.len() - 2] <= max);
    }
}

/// One and a quarter.
pub open spec fn slack() -> Double {
    Double { mant: 5, exp: -2i32 }
}

/// The bytes that a link of `mbit` megabits per second carries in `seconds`, and a
/// quarter more.
pub open spec fn link_bytes(mbit: nat, seconds: nat) -> nat {
    let per_second = quotient(product(int_double(mbit), int_double(1_000_000)), int_double(8));
    whole(product(product(per_second, int_double(seconds)), slack()))
}

/// The speed of a link as its file tells it, else the configured rate; at least one.
pub open spec fn link_speed(file: Option<Seq<char>>, otherwise: u64) -> nat {
    let n = match file {
        Some(text) => match unsigned_value(trimmed(text), 10, u64::MAX as int) {
            Some(n) => n,
            None => otherwise as int,
        },
        None => otherwise as int,
    };
    if n < 1 {
        1
    } else {
        n as nat
    }
}

/// The most bytes that a tick can carry on an interface, from the text of its speed file.
pub open spec fn tick_limit(cfg: Config, speed: Option<Seq<char>>) -> u64 {
    let n = link_bytes(
        link_speed(speed, cfg.max_rate_mbit),
        cfg.poll_interval_sec as nat,
    );
    if n <= u64::MAX {
        n as u64
    } else {
        u64::MAX
    }
}

/// The characters of an optional string.
pub open spec fn text_in(s: Option<String>) -> Option<Seq<char>> {
    match s {
        Some(t) => Some(t@),
        None => None,
    }
}

/// The most bytes that a tick can carry on an interface, from the text of its speed file.
pub fn max_bytes_per_tick(cfg: &Config, speed: &Option<String>) -> (r: u64)
    ensures
        r == tick_limit(*cfg, text_in(*speed)),
{
    let told = match speed {
        Some(text) => {
            let chars = chars_of(text.as_str());
            match parse_unsigned(trim(chars.as_slice()), 10, u64::MAX) {
                Some(n) => n,
                None => cfg.max_rate_mbit,
            }
        },
        None => cfg.max_rate_mbit,
    };
    let mbit: u64 = if told < 1 {
        1
    } else {
        told
    };
    let bits = times(of_int(mbit), of_int(1_000_000));
    let per_second = over(bits, of_int(8));
    let in_tick = times(per_second, of_int(cfg.poll_interval_sec));
    to_whole(times(in_tick, Double { mant: 5, exp: -2 }), u64::MAX)
}

// ---- one tick ----

/// What the counters of an interface show, with the text of its speed file if it has
/// one.
pub struct Reading {
    pub iface: String,
    pub rx: u64,
    pub tx: u64,
    pub speed: Option<String>,
}

/// What an interface has moved since the last tick.
pub struct Move {
    pub iface: Seq<char>,
    pub rx: int,
    pub tx: int,
}

/// What a reading shows to have been counted since the last one: bytes received, bytes
/// sent, and whether a count was thrown away. Nothing for an interface that is left out,
/// or that was not there at the last tick.
pub open spec fn change(
    prev: Map<Seq<char>, (u64, u64)>,
    r: Reading,
    cfg: Config,
) -> Option<(int, int, bool)> {
    if matches_any(cfg.exclude_ifaces@, r.iface@) || !prev.contains_key(r.iface@) {
        None
    } else {
        let max = tick_limit(cfg, text_in(r.speed));
        let rx = counted(prev[r.iface@].0, r.rx, max);
        let tx = counted(prev[r.iface@].1, r.tx, max);
        Some((rx.0, tx.0, rx.1 || tx.1))
    }
}

/// What the interfaces have moved, those that moved anything. An interface with a count
/// that was thrown away has moved nothing.
pub open spec fn moves(
    prev: Map<Seq<char>, (u64, u64)>,
    readings: Seq<Reading>,
    cfg: Config,
) -> Seq<Move>
    decreases readings.len(),
{
    if readings.len() == 0 {
        Seq::empty()
    } else {
        let before = moves(prev, readings.drop_last(), cfg);
        match change(prev, readings.last(), cfg) {
            Some((rx, tx, thrown)) => if !thrown && (rx > 0 || tx > 0) {
                before.push(Move { iface: readings.last().iface@, rx, tx })
            } else {
                before
            },
            None => before,
        }
    }
}

/// How many interfaces had a count thrown away.
pub open spec fn thrown_away(
    prev: Map<Seq<char>, (u64, u64)>,
    readings: Seq<Reading>,
    cfg: Config,
) -> nat
    decreases readings.len(),
{
    if readings.len() == 0 {
        0
    } else {
        let before = thrown_away(prev, readings.drop_last(), cfg);
        match change(prev, readings.last(), cfg) {
            Some((rx, tx, thrown)) => if thrown {
                before + 1
            } else {
                before
            },
            None => before,
        }
    }
}

/// All bytes received.
pub open spec fn moved_rx(v: Seq<Move>) -> int
    decreases v.len(),
{
    if v.len() == 0 {
        0
    } else {
        moved_rx(v.drop_last()) + v.last().rx
    }
}

/// All bytes sent.
pub open spec fn moved_tx(v: Seq<Move>) -> int
    decreases v.len(),
{
    if v.len() == 0 {
        0
    } else {
        moved_tx(v.drop_last()) + v.last().tx
    }
}

/// Whether a count of the local bytes is thrown away.
pub open spec fn lan_thrown(
    prev: Option<(u64, u64)>,
    now: Option<(u64, u64)>,
    max: u64,
) -> bool {
    match (prev, now) {
        (Some(p), Some(n)) => counted(p.0, n.0, max).1 || counted(p.1, n.1, max).1,
        _ => false,
    }
}

/// The local bytes received and sent since the last tick, where both times are known and
/// no count is thrown away.
pub open spec fn lan_moved(
    prev: Option<(u64, u64)>,
    now: Option<(u64, u64)>,
    max: u64,
) -> (int, int) {
    match (prev, now) {
        (Some(p), Some(n)) => if lan_thrown(prev, now, max) {
            (0, 0)
        } else {
            (counted(p.0, n.0, max).0, counted(p.1, n.1, max).0)
        },
        _ => (0, 0),
    }
}

/// The local counters that the next ones are compared with: those that were read, or
/// those from before where a count is thrown away.
pub open spec fn lan_baseline(
    prev: Option<(u64, u64)>,
    now: Option<(u64, u64)>,
    max: u64,
) -> Option<(u64, u64)> {
    if lan_thrown(prev, now, max) {
        prev
    } else {
        now
    }
}

/// How many readings had a count thrown away: those of interfaces, and that of the local
/// counters.
pub open spec fn all_thrown(thrown: nat, lan: bool) -> nat {
    if lan {
        thrown + 1
    } else {
        thrown
    }
}

/// The local bytes received and sent since the last tick, and whether a count is thrown
/// away.
fn compare_lan(prev: Option<(u64, u64)>, now: Option<(u64, u64)>, max: u64) -> (r: (u64, u64, bool))
    ensures
        (r.0 as int, r.1 as int) == lan_moved(prev, now, max),
        r.2 == lan_thrown(prev, now, max),
{
    match (prev, now) {
        (Some((old_rx, old_tx)), Some((new_rx, new_tx))) => {
            let (rx, thrown_rx) = delta(old_rx, new_rx, max);
            let (tx, thrown_tx) = delta(old_tx, new_tx, max);
            if thrown_rx || thrown_tx {
                (0, 0, true)
            } else {
                (rx, tx, false)
            }
        },
        _ => (0, 0, false),
    }
}

/// The part of `lan` that falls on an interface which moved `part` of `total`, at most
/// `part`.
pub open spec fn lan_part(forced: bool, lan: int, part: int, total: int) -> int {
    if forced {
        part
    } else if total <= 0 {
        0
    } else {
        let n = whole(
            product(
                int_double(lan as nat),
                quotient(int_double(part as nat), int_double(total as nat)),
            ),
        );
        if n <= part {
            n as int
        } else {
            part
        }
    }
}

/// Whether a row is the sample of what an interface moved: all local on an interface
/// that is forced to be, else with its part of the local bytes.
pub open spec fn is_sample(
    row: Row,
    m: Move,
    lan: (int, int),
    total: (int, int),
    cfg: Config,
    now: i64,
) -> bool {
    let forced = matches_any(cfg.force_lan_ifaces@, m.iface);
    &&& row.ts == now
    &&& row.iface@ == m.iface
    &&& row.rx == m.rx
    &&& row.tx == m.tx
    &&& row.lan_rx == lan_part(forced, lan.0, m.rx, total.0)
    &&& row.lan_tx == lan_part(forced, lan.1, m.tx, total.1)
}

/// Whether a count of an interface is thrown away.
pub open spec fn is_thrown(prev: Map<Seq<char>, (u64, u64)>, r: Reading, cfg: Config) -> bool {
    change(prev, r, cfg) matches Some((rx, tx, thrown)) && thrown
}

/// The counters that the next readings are compared with: those that were read, of the
/// interfaces that are not left out. An interface with a count that was thrown away keeps
/// the counters from before.
pub open spec fn baseline_after(
    prev: Map<Seq<char>, (u64, u64)>,
    readings: Seq<Reading>,
    cfg: Config,
) -> Map<Seq<char>, (u64, u64)>
    decreases readings.len(),
{
    if readings.len() == 0 {
        Map::empty()
    } else {
        let before = baseline_after(prev, readings.drop_last(), cfg);
        let r = readings.last();
        if matches_any(cfg.exclude_ifaces@, r.iface@) {
            before
        } else if is_thrown(prev, r, cfg) {
            before.insert(r.iface@, prev[r.iface@])
        } else {
            before.insert(r.iface@, (r.rx, r.tx))
        }
    }
}

/// The first place of an interface among what was moved, or the length where it has none.
pub open spec fn place_in(v: Seq<Move>, name: Seq<char>) -> nat
    decreases v.len(),
{
    if v.len() == 0 || v[0].iface == name {
        0
    } else {
        1 + place_in(v.drop_first(), name)
    }
}

/// What was moved, with what an interface has moved more.
pub open spec fn with_move(v: Seq<Move>, m: Move) -> Seq<Move> {
    let at = place_in(v, m.iface) as int;
    if at < v.len() {
        v.update(at, Move { iface: m.iface, rx: v[at].rx + m.rx, tx: v[at].tx + m.tx })
    } else {
        v.push(m)
    }
}

/// Whether everything that was moved counts: by interfaces that are not left out, each
/// once, and none without bytes.
pub open spec fn are_counted(v: Seq<Move>, cfg: Config) -> bool {
    &&& forall|i: int|
        0 <= i < v.len() ==> !matches_any(cfg.exclude_ifaces@, (#[trigger] v[i]).iface) && 0
            <= v[i].rx && 0 <= v[i].tx && 0 < v[i].rx + v[i].tx
    &&& forall|i: int, j: int| 0 <= i < j < v.len() ==> v[i].iface != v[j].iface
}

/// Whether all samples count: of interfaces that are not left out, each once, and none
/// without bytes.
pub open spec fn samples_count(samples: Seq<Row>, cfg: Config) -> bool {
    &&& forall|i: int|
        0 <= i < samples.len() ==> !matches_any(
            cfg.exclude_ifaces@,
            (#[trigger] samples[i]).iface@,
        ) && 0 < samples[i].rx + samples[i].tx
    &&& forall|i: int, j: int|
        0 <= i < j < samples.len() ==> samples[i].iface@ != samples[j].iface@
}

/// What was held back, with what was moved since, by interfaces.
pub open spec fn gathered(held: Seq<Move>, more: Seq<Move>) -> Seq<Move>
    decreases more.len(),
{
    if more.len() == 0 {
        held
    } else {
        with_move(gathered(held, more.drop_last()), more.last())
    }
}

/// What some counts say to have been moved.
pub open spec fn held_moves(v: Seq<Counter>) -> Seq<Move> {
    Seq::new(v.len(), |i: int| Move { iface: v[i].iface@, rx: v[i].rx as int, tx: v[i].tx as int })
}

/// What came of a tick: the samples to store, and how many readings had a count thrown
/// away.
pub struct Tick {
    pub samples: Vec<Row>,
    pub discarded: u64,
}

/// What the daemon remembers from one tick to the next: the counters of the last tick, the
/// time of the last samples, and the bytes that are held back until the clock has come up
/// to it.
pub struct Meter {
    pub prev: Vec<Counter>,
    pub prev_lan: Option<(u64, u64)>,
    pub last: i64,
    pub held: Vec<Counter>,
    pub held_lan: (u64, u64),
}

/// The counters of an interface, where they are known.
pub fn find_counter(v: &Vec<Counter>, name: &str) -> (r: Option<(u64, u64)>)
    ensures
        r is Some <==> counter_map(v@).contains_key(name@),
        r matches Some(c) ==> counter_map(v@)[name@] == c,
{
    let mut i: usize = v.len();
    assert(v@.take(v@.len() as int) =~= v@);
    while i > 0
        invariant
            i <= v.len(),
            counter_map(v@).contains_key(name@) == counter_map(v@.take(i as int)).contains_key(
                name@,
            ),
            counter_map(v@).contains_key(name@) ==> counter_map(v@)[name@] == counter_map(
                v@.take(i as int),
            )[name@],
        decreases i,
    {
        assert(v@.take(i as int).drop_last() =~= v@.take(i - 1));
        assert(v@.take(i as int).last() == v@[i - 1]);
        i = i - 1;
        if same_text(v[i].iface.as_str(), name) {
            return Some((v[i].rx, v[i].tx));
        }
    }
    None
}

/// What a reading shows to have been counted since the last one.
fn compare(prev: &Vec<Counter>, x: &Reading, cfg: &Config) -> (r: Option<(u64, u64, bool)>)
    ensures
        match (change(counter_map(prev@), *x, *cfg), r) {
            (Some((a, b, c)), Some((rx, tx, thrown))) => a == rx && b == tx && c == thrown,
            (None, None) => true,
            _ => false,
        },
{
    if cfg.excluded(x.iface.as_str()) {
        return None;
    }
    match find_counter(prev, x.iface.as_str()) {
        Some((old_rx, old_tx)) => {
            let max = max_bytes_per_tick(cfg, &x.speed);
            let (rx, thrown_rx) = delta(old_rx, x.rx, max);
            let (tx, thrown_tx) = delta(old_tx, x.tx, max);
            Some((rx, tx, thrown_rx || thrown_tx))
        },
        None => None,
    }
}

/// What the interfaces have moved, the counters that the next readings are compared with,
/// and how many interfaces had a count thrown away.
fn survey(
    prev: &Vec<Counter>,
    readings: &Vec<Reading>,
    cfg: &Config,
) -> (r: (Vec<Counter>, Vec<Counter>, u64))
    ensures
        held_moves(r.0@) == moves(counter_map(prev@), readings@, *cfg),
        counter_map(r.1@) == baseline_after(counter_map(prev@), readings@, *cfg),
        r.2 == thrown_away(counter_map(prev@), readings@, *cfg),
{
    let ghost was = counter_map(prev@);
    let mut moved: Vec<Counter> = Vec::new();
    let mut next: Vec<Counter> = Vec::new();
    let mut discarded: u64 = 0;
    let mut i: usize = 0;
    assert(held_moves(moved@) =~= Seq::empty());
    while i < readings.len()
        invariant
            i <= readings.len(),
            was == counter_map(prev@),
            held_moves(moved@) == moves(was, readings@.take(i as int), *cfg),
            counter_map(next@) == baseline_after(was, readings@.take(i as int), *cfg),
            discarded == thrown_away(was, readings@.take(i as int), *cfg),
            discarded <= i,
        decreases readings.len() - i,
    {
        assert(readings@.take(i + 1).drop_last() =~= readings@.take(i as int));
        let x = &readings[i];
        let ghost (had_moved, had_next) = (moved@, next@);
        if !cfg.excluded(x.iface.as_str()) {
            let (mut rx, mut tx) = (x.rx, x.tx);
            match compare(prev, x, cfg) {
                Some((more_rx, more_tx, thrown)) => {
                    if thrown {
                        discarded = discarded + 1;
                        match find_counter(prev, x.iface.as_str()) {
                            Some((old_rx, old_tx)) => {
                                rx = old_rx;
                                tx = old_tx;
                            },
                            None => {},
                        }
                    } else if more_rx > 0 || more_tx > 0 {
                        moved.push(Counter { iface: x.iface.clone(), rx: more_rx, tx: more_tx });
                        assert(held_moves(moved@) =~= held_moves(had_moved).push(
                            Move { iface: x.iface@, rx: more_rx as int, tx: more_tx as int },
                        ));
                    }
                },
                None => {},
            }
            next.push(Counter { iface: x.iface.clone(), rx, tx });
            assert(next@.drop_last() =~= had_next);
        }
        i = i + 1;
    }
    assert(readings@.take(i as int) =~= readings@);
    (moved, next, discarded)
}

/// Whether no count of what was moved is negative.
pub open spec fn no_debt(v: Seq<Move>) -> bool {
    forall|i: int| 0 <= i < v.len() ==> 0 <= (#[trigger] v[i]).rx && 0 <= v[i].tx
}

proof fn place_in_is_first(v: Seq<Move>, name: Seq<char>)
    ensures
        place_in(v, name) <= v.len(),
        place_in(v, name) < v.len() ==> v[place_in(v, name) as int].iface == name,
    decreases v.len(),
{
    if v.len() > 0 && v[0].iface != name {
        place_in_is_first(v.drop_first(), name);
    }
}

proof fn moved_update(v: Seq<Move>, i: int, m: Move)
    requires
        0 <= i < v.len(),
    ensures
        moved_rx(v.update(i, m)) == moved_rx(v) - v[i].rx + m.rx,
        moved_tx(v.update(i, m)) == moved_tx(v) - v[i].tx + m.tx,
    decreases v.len(),
{
    let changed = v.update(i, m);
    if i == v.len() - 1 {
        assert(changed.drop_last() =~= v.drop_last());
    } else {
        moved_update(v.drop_last(), i, m);
        assert(changed.drop_last() =~= v.drop_last().update(i, m));
    }
}

proof fn with_move_sums(v: Seq<Move>, m: Move)
    ensures
        moved_rx(with_move(v, m)) == moved_rx(v) + m.rx,
        moved_tx(with_move(v, m)) == moved_tx(v) + m.tx,
        no_debt(v) && 0 <= m.rx && 0 <= m.tx ==> no_debt(with_move(v, m)),
{
    let at = place_in(v, m.iface) as int;
    place_in_is_first(v, m.iface);
    if at < v.len() {
        moved_update(
            v,
            at,
            Move { iface: m.iface, rx: v[at].rx + m.rx, tx: v[at].tx + m.tx },
        );
    } else {
        assert(v.push(m).drop_last() =~= v);
    }
}

/// Holding bytes back loses none of them: with what was moved since, they add up.
pub proof fn held_bytes_are_kept(held: Seq<Move>, more: Seq<Move>)
    ensures
        moved_rx(gathered(held, more)) == moved_rx(held) + moved_rx(more),
        moved_tx(gathered(held, more)) == moved_tx(held) + moved_tx(more),
        no_debt(held) && no_debt(more) ==> no_debt(gathered(held, more)),
    decreases more.len(),
{
    if more.len() > 0 {
        held_bytes_are_kept(held, more.drop_last());
        with_move_sums(gathered(held, more.drop_last()), more.last());
        if no_debt(more) {
            assert(0 <= more[more.len() - 1].rx && 0 <= more[more.len() - 1].tx);
            assert forall|i: int| 0 <= i < more.drop_last().len() implies 0 <= (
            #[trigger] more.drop_last()[i]).rx && 0 <= more.drop_last()[i].tx by {
                assert(0 <= more[i].rx);
            }
        }
    }
}

proof fn moved_prefix(v: Seq<Move>, n: int)
    requires
        no_debt(v),
        0 <= n <= v.len(),
    ensures
        0 <= moved_rx(v.take(n)) <= moved_rx(v),
        0 <= moved_tx(v.take(n)) <= moved_tx(v),
        forall|i: int| 0 <= i < v.len() ==> (#[trigger] v[i]).rx <= moved_rx(v) && v[i].tx <= moved_tx(v),
    decreases v.len(),
{
    if v.len() > 0 {
        let fewer = v.drop_last();
        assert(0 <= v[v.len() - 1].rx && 0 <= v[v.len() - 1].tx);
        assert forall|i: int| 0 <= i < fewer.len() implies 0 <= (#[trigger] fewer[i]).rx && 0
            <= fewer[i].tx by {
            assert(0 <= v[i].rx);
        }
        if n == v.len() {
            assert(v.take(n) =~= v);
            moved_prefix(fewer, n - 1);
            assert(fewer.take(n - 1) =~= fewer);
        } else {
            moved_prefix(fewer, n);
            assert(fewer.take(n) =~= v.take(n));
        }
        assert forall|i: int| 0 <= i < v.len() implies (#[trigger] v[i]).rx <= moved_rx(v)
            && v[i].tx <= moved_tx(v) by {
            if i < fewer.len() {
                assert(fewer[i].rx <= moved_rx(fewer));
            }
        }
    }
}

/// The place of an interface among some counts, or their number where it has none.
fn find_place(v: &Vec<Counter>, name: &str) -> (r: usize)
    ensures
        r == place_in(held_moves(v@), name@),
        r <= v@.len(),
{
    let ghost all = held_moves(v@);
    let mut i: usize = 0;
    assert(all.skip(0) =~= all);
    while i < v.len()
        invariant
            i <= v.len(),
            all == held_moves(v@),
            place_in(all, name@) == i + place_in(all.skip(i as int), name@),
        decreases v.len() - i,
    {
        assert(all.skip(i as int)[0] == all[i as int]);
        assert(all.skip(i as int).drop_first() =~= all.skip(i + 1));
        if same_text(v[i].iface.as_str(), name) {
            return i;
        }
        i = i + 1;
    }
    i
}

/// Some counts with those of another list, by interfaces; nothing where one does not fit.
fn gather(held: &Vec<Counter>, more: &Vec<Counter>) -> (r: Option<Vec<Counter>>)
    ensures
        ({
            let v = gathered(held_moves(held@), held_moves(more@));
            &&& r matches Some(out) ==> held_moves(out@) == v
            &&& r is None ==> moved_rx(v) > u64::MAX || moved_tx(v) > u64::MAX
        }),
{
    let ghost start = held_moves(held@);
    let ghost all = held_moves(more@);
    let mut out: Vec<Counter> = Vec::new();
    let mut k: usize = 0;
    while k < held.len()
        invariant
            k <= held.len(),
            out.len() == k,
            forall|j: int|
                0 <= j < k ==> (#[trigger] out@[j]).iface@ == start[j].iface && out@[j].rx
                    == start[j].rx && out@[j].tx == start[j].tx,
            start == held_moves(held@),
        decreases held.len() - k,
    {
        out.push(Counter { iface: held[k].iface.clone(), rx: held[k].rx, tx: held[k].tx });
        k = k + 1;
    }
    assert(held_moves(out@) =~= start);
    let mut i: usize = 0;
    assert(all.take(0) =~= Seq::empty());
    while i < more.len()
        invariant
            i <= more.len(),
            start == held_moves(held@),
            all == held_moves(more@),
            held_moves(out@) == gathered(start, all.take(i as int)),
        decreases more.len() - i,
    {
        let x = &more[i];
        let ghost w = held_moves(out@);
        let ghost m = all[i as int];
        let ghost next = gathered(start, all.take(i + 1));
        proof {
            assert(all.take(i + 1).drop_last() =~= all.take(i as int));
            assert(next == with_move(w, m));
            held_bytes_are_kept(start, all.take(i + 1));
            held_bytes_are_kept(start, all);
            moved_prefix(all, i + 1);
            moved_prefix(next, next.len() as int);
        }
        let at = find_place(&out, x.iface.as_str());
        if at < out.len() {
            match (out[at].rx.checked_add(x.rx), out[at].tx.checked_add(x.tx)) {
                (Some(rx), Some(tx)) => {
                    proof {
                        place_in_is_first(w, x.iface@);
                    }
                    out.set(at, Counter { iface: x.iface.clone(), rx, tx });
                    assert(held_moves(out@) =~= next);
                },
                _ => {
                    assert(next[at as int].rx > u64::MAX || next[at as int].tx > u64::MAX);
                    return None;
                },
            }
        } else {
            out.push(Counter { iface: x.iface.clone(), rx: x.rx, tx: x.tx });
            assert(held_moves(out@) =~= next);
        }
        i = i + 1;
    }
    assert(all.take(i as int) =~= all);
    Some(out)
}

/// All bytes of some counts; nothing where they do not fit.
fn sum_counts(v: &Vec<Counter>) -> (r: Option<(i64, i64)>)
    ensures
        ({
            let m = held_moves(v@);
            &&& r is Some <==> moved_rx(m) <= i64::MAX && moved_tx(m) <= i64::MAX
            &&& r matches Some(t) ==> t.0 == moved_rx(m) && t.1 == moved_tx(m)
        }),
{
    let ghost all = held_moves(v@);
    let mut rx: i64 = 0;
    let mut tx: i64 = 0;
    let mut i: usize = 0;
    assert(all.take(0) =~= Seq::empty());
    while i < v.len()
        invariant
            i <= v.len(),
            all == held_moves(v@),
            0 <= rx == moved_rx(all.take(i as int)),
            0 <= tx == moved_tx(all.take(i as int)),
        decreases v.len() - i,
    {
        proof {
            assert(all.take(i + 1).drop_last() =~= all.take(i as int));
            assert(all.take(i + 1).last() == all[i as int]);
            moved_prefix(all, i + 1);
        }
        if v[i].rx > (i64::MAX - rx) as u64 || v[i].tx > (i64::MAX - tx) as u64 {
            return None;
        }
        rx = rx + v[i].rx as i64;
        tx = tx + v[i].tx as i64;
        i = i + 1;
    }
    assert(all.take(i as int) =~= all);
    Some((rx, tx))
}

fn share(forced: bool, lan: i64, part: i64, total: i64) -> (r: i64)
    requires
        0 <= lan,
        0 <= part,
    ensures
        r == lan_part(forced, lan as int, part as int, total as int),
        0 <= r <= part,
{
    if forced {
        part
    } else if total <= 0 {
        0
    } else {
        let fraction = over(of_int(part as u64), of_int(total as u64));
        to_whole(times(of_int(lan as u64), fraction), part as u64) as i64
    }
}

/// Whether the bytes of a tick fit the signed 64-bit counts of a sample.
pub open spec fn tick_fits(v: Seq<Move>, lan: (int, int)) -> bool {
    moved_rx(v) <= i64::MAX && moved_tx(v) <= i64::MAX && lan.0 <= i64::MAX && lan.1 <= i64::MAX
}

/// Whether samples are those of what the interfaces moved.
pub open spec fn are_samples(
    samples: Seq<Row>,
    v: Seq<Move>,
    lan: (int, int),
    cfg: Config,
    now: i64,
) -> bool {
    &&& samples.len() == v.len()
    &&& forall|i: int|
        0 <= i < samples.len() ==> is_sample(
            #[trigger] samples[i],
            v[i],
            lan,
            (moved_rx(v), moved_tx(v)),
            cfg,
            now,
        ) && 0 <= samples[i].lan_rx <= samples[i].rx && 0 <= samples[i].lan_tx <= samples[i].tx
}

/// Whether so much time went by since the last tick that the machine must have slept.
pub open spec fn is_gap(gap: u64, cfg: Config) -> bool {
    let interval = if cfg.poll_interval_sec < 1 {
        1
    } else {
        cfg.poll_interval_sec as int
    };
    gap > 2 * interval
}

/// Whether so much time went by since the last tick that the machine must have slept.
pub fn slept(gap: u64, cfg: &Config) -> (r: bool)
    ensures
        r == is_gap(gap, *cfg),
{
    let interval: u64 = if cfg.poll_interval_sec < 1 {
        1
    } else {
        cfg.poll_interval_sec
    };
    gap as u128 > 2 * (interval as u128)
}

/// The local bytes that were held back, with those moved since.
pub open spec fn lan_gathered(held: (u64, u64), moved: (int, int)) -> (int, int) {
    (held.0 + moved.0, held.1 + moved.1)
}

impl Meter {
    /// A meter that has seen nothing yet, after samples up to a time if there were any.
    pub fn new(last: Option<i64>) -> (r: Meter)
        ensures
            counter_map(r.prev@) == Map::<Seq<char>, (u64, u64)>::empty(),
            r.prev_lan is None,
            r.last == match last {
                Some(t) => t,
                None => i64::MIN,
            },
            held_moves(r.held@).len() == 0,
            r.held_lan == (0u64, 0u64),
    {
        let last = match last {
            Some(t) => t,
            None => i64::MIN,
        };
        Meter { prev: Vec::new(), prev_lan: None, last, held: Vec::new(), held_lan: (0, 0) }
    }

    /// Takes in what the counters show, `gap` seconds after the last tick.
    ///
    /// After a gap nothing is counted, and the interfaces start anew. Else what the
    /// interfaces have moved since the last tick is counted, and the local counters with
    /// them; a reading with a count that is thrown away keeps its baseline. While the clock stands before
    /// the time of the last samples, the bytes are held back, so that the time of samples
    /// never falls. Else the samples are all that was moved, with what was held back, each
    /// with its part of the local bytes. Nothing comes back where the bytes do not fit the
    /// counts of a sample.
    pub fn tick(
        &mut self,
        cfg: &Config,
        gap: u64,
        readings: &Vec<Reading>,
        lan_now: Option<(u64, u64)>,
        lan_speed: &Option<String>,
        now: i64,
    ) -> (r: Option<Tick>)
        ensures
            ticks(
                *old(self),
                *final(self),
                *cfg,
                gap,
                readings@,
                lan_now,
                text_in(*lan_speed),
                now,
                r,
            ),
            final(self).last >= old(self).last,
            r matches Some(t) ==> forall|i: int|
                0 <= i < t.samples@.len() ==> (#[trigger] t.samples@[i]).ts >= old(self).last,
            are_counted(held_moves(old(self).held@), *cfg) ==> {
                &&& are_counted(held_moves(final(self).held@), *cfg)
                &&& r matches Some(t) ==> samples_count(t.samples@, *cfg)
            },
            !is_gap(gap, *cfg) && now >= old(self).last && r is Some ==> forall|k: int|
                0 <= k < readings@.len() && !matches_any(
                    cfg.exclude_ifaces@,
                    (#[trigger] readings@[k]).iface@,
                ) && counter_map(old(self).prev@).contains_key(readings@[k].iface@) ==> {
                    let was = counter_map(old(self).prev@)[readings@[k].iface@];
                    let max = tick_limit(*cfg, text_in(readings@[k].speed));
                    let rx = counted(was.0, readings@[k].rx, max);
                    let tx = counted(was.1, readings@[k].tx, max);
                    !rx.1 && !tx.1 && (rx.0 > 0 || tx.0 > 0) ==> has_sample(
                        r->0.samples@,
                        readings@[k].iface@,
                        rx.0,
                        tx.0,
                    )
                },
            is_gap(gap, *cfg) ==> {
                &&& counter_map(final(self).prev@) == Map::<Seq<char>, (u64, u64)>::empty()
                &&& final(self).prev_lan == lan_now
                &&& r matches Some(t) && t.samples@.len() == 0 && t.discarded == 0
            },
            is_gap(gap, *cfg) || r is None ==> {
                &&& final(self).last == old(self).last
                &&& final(self).held == old(self).held
                &&& final(self).held_lan == old(self).held_lan
            },
            !is_gap(gap, *cfg) ==> counter_map(final(self).prev@) == baseline_after(
                counter_map(old(self).prev@),
                readings@,
                *cfg,
            ),
            !is_gap(gap, *cfg) ==> {
                let prev = counter_map(old(self).prev@);
                let v = gathered(held_moves(old(self).held@), moves(prev, readings@, *cfg));
                let max = tick_limit(*cfg, text_in(*lan_speed));
                let lan = lan_gathered(
                    old(self).held_lan,
                    lan_moved(old(self).prev_lan, lan_now, max),
                );
                let thrown = all_thrown(
                    thrown_away(prev, readings@, *cfg),
                    lan_thrown(old(self).prev_lan, lan_now, max),
                );
                &&& final(self).prev_lan == lan_baseline(old(self).prev_lan, lan_now, max)
                &&& r is Some <==> tick_fits(v, lan) && thrown <= u64::MAX
                &&& r matches Some(t) ==> t.discarded == thrown
                &&& r is Some && now < old(self).last ==> {
                    &&& r->0.samples@.len() == 0
                    &&& final(self).last == old(self).last
                    &&& held_moves(final(self).held@) == v
                    &&& lan == (final(self).held_lan.0 as int, final(self).held_lan.1 as int)
                }
                &&& r is Some && now >= old(self).last ==> {
                    &&& are_samples(r->0.samples@, v, lan, *cfg, now)
                    &&& final(self).last == if v.len() > 0 {
                        now
                    } else {
                        old(self).last
                    }
                    &&& final(self).held@.len() == 0
                    &&& final(self).held_lan == (0u64, 0u64)
                }
            },
    {
        if slept(gap, cfg) {
            self.prev = Vec::new();
            self.prev_lan = lan_now;
            return Some(Tick { samples: Vec::new(), discarded: 0 });
        }
        let (moved, next, thrown) = survey(&self.prev, readings, cfg);
        self.prev = next;
        let max = max_bytes_per_tick(cfg, lan_speed);
        let (lan_rx, lan_tx, thrown_lan) = compare_lan(self.prev_lan, lan_now, max);
        if !thrown_lan {
            self.prev_lan = lan_now;
        }
        let discarded: u64 = if thrown_lan {
            match thrown.checked_add(1) {
                Some(n) => n,
                None => {
                    return None;
                },
            }
        } else {
            thrown
        };
        let all = match gather(&self.held, &moved) {
            Some(v) => v,
            None => {
                return None;
            },
        };
        let (sum_rx, sum_tx) = match sum_counts(&all) {
            Some(t) => t,
            None => {
                return None;
            },
        };
        let (lan_rx, lan_tx): (u64, u64) = match (
            self.held_lan.0.checked_add(lan_rx),
            self.held_lan.1.checked_add(lan_tx),
        ) {
            (Some(a), Some(b)) => (a, b),
            _ => {
                return None;
            },
        };
        if lan_rx > i64::MAX as u64 || lan_tx > i64::MAX as u64 {
            return None;
        }
        proof {
            if are_counted(held_moves(old(self).held@), *cfg) {
                only_what_counts_is_gathered(
                    held_moves(old(self).held@),
                    counter_map(old(self).prev@),
                    readings@,
                    *cfg,
                );
            }
        }
        if now < self.last {
            self.held = all;
            self.held_lan = (lan_rx, lan_tx);
            return Some(Tick { samples: Vec::new(), discarded });
        }
        let ghost v = held_moves(all@);
        let ghost lan = (lan_rx as int, lan_tx as int);
        let mut samples: Vec<Row> = Vec::new();
        let mut i: usize = 0;
        proof {
            moved_prefix(v, v.len() as int);
        }
        while i < all.len()
            invariant
                i <= all.len(),
                v == held_moves(all@),
                sum_rx == moved_rx(v),
                sum_tx == moved_tx(v),
                forall|i: int|
                    0 <= i < v.len() ==> (#[trigger] v[i]).rx <= sum_rx && v[i].tx <= sum_tx,
                lan == (lan_rx as int, lan_tx as int),
                lan_rx <= i64::MAX,
                lan_tx <= i64::MAX,
                samples.len() == i,
                forall|i: int|
                    0 <= i < samples.len() ==> is_sample(
                        #[trigger] samples@[i],
                        v[i],
                        lan,
                        (moved_rx(v), moved_tx(v)),
                        *cfg,
                        now,
                    ) && 0 <= samples@[i].lan_rx <= samples@[i].rx && 0 <= samples@[i].lan_tx
                        <= samples@[i].tx,
            decreases all.len() - i,
        {
            let p = &all[i];
            assert(v[i as int].rx <= sum_rx && v[i as int].tx <= sum_tx);
            let (rx, tx) = (p.rx as i64, p.tx as i64);
            let forced = cfg.forced_lan(p.iface.as_str());
            samples.push(
                Row {
                    ts: now,
                    iface: p.iface.clone(),
                    rx,
                    tx,
                    lan_rx: share(forced, lan_rx as i64, rx, sum_rx),
                    lan_tx: share(forced, lan_tx as i64, tx, sum_tx),
                },
            );
            i = i + 1;
        }
        if samples.len() > 0 {
            self.last = now;
        }
        proof {
            let was = counter_map(old(self).prev@);
            let more = held_moves(moved@);
            assert forall|k: int|
                0 <= k < readings@.len() && !matches_any(
                    cfg.exclude_ifaces@,
                    (#[trigger] readings@[k]).iface@,
                ) && was.contains_key(readings@[k].iface@) && ({
                    let max = tick_limit(*cfg, text_in(readings@[k].speed));
                    let rx = counted(was[readings@[k].iface@].0, readings@[k].rx, max);
                    let tx = counted(was[readings@[k].iface@].1, readings@[k].tx, max);
                    !rx.1 && !tx.1 && (rx.0 > 0 || tx.0 > 0)
                }) implies has_sample(
                samples@,
                readings@[k].iface@,
                counted(
                    was[readings@[k].iface@].0,
                    readings@[k].rx,
                    tick_limit(*cfg, text_in(readings@[k].speed)),
                ).0,
                counted(
                    was[readings@[k].iface@].1,
                    readings@[k].tx,
                    tick_limit(*cfg, text_in(readings@[k].speed)),
                ).0,
            ) by {
                what_counts_is_moved(was, readings@, *cfg, k);
                let max = tick_limit(*cfg, text_in(readings@[k].speed));
                let m = Move {
                    iface: readings@[k].iface@,
                    rx: counted(was[readings@[k].iface@].0, readings@[k].rx, max).0,
                    tx: counted(was[readings@[k].iface@].1, readings@[k].tx, max).0,
                };
                let w = choose|w: int| 0 <= w < more.len() && more[w] == m;
                what_is_moved_is_gathered(held_moves(old(self).held@), more, w);
                let i = choose|i: int|
                    0 <= i < v.len() && (#[trigger] v[i]).iface == m.iface && v[i].rx >= m.rx
                        && v[i].tx >= m.tx;
                assert(samples@[i].iface@ == m.iface);
            }
            if are_counted(v, *cfg) {
                assert forall|i: int| 0 <= i < samples@.len() implies !matches_any(
                    cfg.exclude_ifaces@,
                    (#[trigger] samples@[i]).iface@,
                ) && 0 < samples@[i].rx + samples@[i].tx by {
                    assert(v[i].iface == samples@[i].iface@);
                }
                assert forall|i: int, j: int| 0 <= i < j < samples@.len() implies samples@[i].iface@
                    != samples@[j].iface@ by {
                    assert(v[i].iface == samples@[i].iface@ && v[j].iface == samples@[j].iface@);
                }
            }
        }
        self.held = Vec::new();
        self.held_lan = (0, 0);
        Some(Tick { samples, discarded })
    }
}

// ---- no byte is lost ----

/// What some readings add up to.
pub open spec fn sum_over(readings: Seq<Reading>, f: spec_fn(Reading) -> int) -> int
    decreases readings.len(),
{
    if readings.len() == 0 {
        0
    } else {
        sum_over(readings.drop_last(), f) + f(readings.last())
    }
}

/// Whether a reading counts: its interface is not left out and was read before, and
/// neither of its counts is thrown away.
pub open spec fn is_good(prev: Map<Seq<char>, (u64, u64)>, r: Reading, cfg: Config) -> bool {
    let max = tick_limit(cfg, text_in(r.speed));
    &&& !matches_any(cfg.exclude_ifaces@, r.iface@)
    &&& prev.contains_key(r.iface@)
    &&& !counted(prev[r.iface@].0, r.rx, max).1
    &&& !counted(prev[r.iface@].1, r.tx, max).1
}

/// The received bytes of a reading that counts.
pub open spec fn good_rx(prev: Map<Seq<char>, (u64, u64)>, cfg: Config) -> spec_fn(Reading) -> int {
    |r: Reading|
        if is_good(prev, r, cfg) {
            counted(prev[r.iface@].0, r.rx, tick_limit(cfg, text_in(r.speed))).0
        } else {
            0
        }
}

/// The sent bytes of a reading that counts.
pub open spec fn good_tx(prev: Map<Seq<char>, (u64, u64)>, cfg: Config) -> spec_fn(Reading) -> int {
    |r: Reading|
        if is_good(prev, r, cfg) {
            counted(prev[r.iface@].1, r.tx, tick_limit(cfg, text_in(r.speed))).0
        } else {
            0
        }
}

/// Every reading that counts and shows received or sent bytes stands among what was moved,
/// with just these two counts.
pub proof fn what_counts_is_moved(
    prev: Map<Seq<char>, (u64, u64)>,
    readings: Seq<Reading>,
    cfg: Config,
    k: int,
)
    requires
        0 <= k < readings.len(),
        !matches_any(cfg.exclude_ifaces@, readings[k].iface@),
        prev.contains_key(readings[k].iface@),
        ({
            let max = tick_limit(cfg, text_in(readings[k].speed));
            let rx = counted(prev[readings[k].iface@].0, readings[k].rx, max);
            let tx = counted(prev[readings[k].iface@].1, readings[k].tx, max);
            !rx.1 && !tx.1 && (rx.0 > 0 || tx.0 > 0)
        }),
    ensures
        ({
            let max = tick_limit(cfg, text_in(readings[k].speed));
            moves(prev, readings, cfg).contains(
                Move {
                    iface: readings[k].iface@,
                    rx: counted(prev[readings[k].iface@].0, readings[k].rx, max).0,
                    tx: counted(prev[readings[k].iface@].1, readings[k].tx, max).0,
                },
            )
        }),
    decreases readings.len(),
{
    let fewer = readings.drop_last();
    let max = tick_limit(cfg, text_in(readings[k].speed));
    let m = Move {
        iface: readings[k].iface@,
        rx: counted(prev[readings[k].iface@].0, readings[k].rx, max).0,
        tx: counted(prev[readings[k].iface@].1, readings[k].tx, max).0,
    };
    let all = moves(prev, readings, cfg);
    if k == readings.len() - 1 {
        assert(all[all.len() - 1] == m);
    } else {
        assert(fewer[k] == readings[k]);
        what_counts_is_moved(prev, fewer, cfg, k);
        let before = moves(prev, fewer, cfg);
        let i = choose|i: int| 0 <= i < before.len() && before[i] == m;
        assert(all[i] == m);
    }
}

/// Whatever was moved is what some reading counts, with just its two counts, which are not
/// both zero.
pub proof fn what_is_moved_counts(
    prev: Map<Seq<char>, (u64, u64)>,
    readings: Seq<Reading>,
    cfg: Config,
    i: int,
)
    requires
        0 <= i < moves(prev, readings, cfg).len(),
    ensures
        ({
            let m = moves(prev, readings, cfg)[i];
            &&& 0 < m.rx + m.tx
            &&& exists|k: int|
                0 <= k < readings.len() && is_good(prev, #[trigger] readings[k], cfg)
                    && readings[k].iface@ == m.iface && good_rx(prev, cfg)(readings[k]) == m.rx
                    && good_tx(prev, cfg)(readings[k]) == m.tx
        }),
    decreases readings.len(),
{
    let fewer = readings.drop_last();
    let before = moves(prev, fewer, cfg);
    let m = moves(prev, readings, cfg)[i];
    if i < before.len() {
        what_is_moved_counts(prev, fewer, cfg, i);
        let k = choose|k: int|
            0 <= k < fewer.len() && is_good(prev, #[trigger] fewer[k], cfg) && fewer[k].iface@
                == m.iface && good_rx(prev, cfg)(fewer[k]) == m.rx && good_tx(prev, cfg)(fewer[k])
                == m.tx;
        assert(readings[k] == fewer[k]);
    } else {
        assert(is_good(prev, readings[readings.len() - 1], cfg));
    }
}

/// Over a tick all received bytes that count, and all sent ones, are among what was moved:
/// a tick in which bytes only went one way loses none.
pub proof fn no_counted_byte_is_lost(
    prev: Map<Seq<char>, (u64, u64)>,
    readings: Seq<Reading>,
    cfg: Config,
)
    ensures
        moved_rx(moves(prev, readings, cfg)) == sum_over(readings, good_rx(prev, cfg)),
        moved_tx(moves(prev, readings, cfg)) == sum_over(readings, good_tx(prev, cfg)),
    decreases readings.len(),
{
    if readings.len() > 0 {
        let fewer = readings.drop_last();
        no_counted_byte_is_lost(prev, fewer, cfg);
        let (before, all) = (moves(prev, fewer, cfg), moves(prev, readings, cfg));
        if all.len() > before.len() {
            assert(all.drop_last() =~= before);
        }
    }
}

/// The bytes of two lists of moves add up to those of both together, received ones and sent
/// ones apart.
pub proof fn moves_add_up(a: Seq<Move>, b: Seq<Move>, m: Move)
    ensures
        moved_rx(a + b) == moved_rx(a) + moved_rx(b),
        moved_tx(a + b) == moved_tx(a) + moved_tx(b),
        moved_rx(seq![m]) == m.rx,
        moved_tx(seq![m]) == m.tx,
    decreases b.len(),
{
    reveal_with_fuel(moved_rx, 2);
    reveal_with_fuel(moved_tx, 2);
    if b.len() == 0 {
        assert(a + b =~= a);
    } else {
        moves_add_up(a, b.drop_last(), m);
        assert((a + b).drop_last() =~= a + b.drop_last());
    }
    assert(seq![m].drop_last() =~= Seq::empty());
}

/// As many readings are said to be thrown away as have a count that is, of interfaces that
/// are not left out and were read before.
pub proof fn each_thrown_reading_is_told(
    prev: Map<Seq<char>, (u64, u64)>,
    readings: Seq<Reading>,
    cfg: Config,
)
    ensures
        thrown_away(prev, readings, cfg) == sum_over(
            readings,
            |r: Reading|
                if !matches_any(cfg.exclude_ifaces@, r.iface@) && prev.contains_key(r.iface@)
                    && !is_good(prev, r, cfg) {
                    1int
                } else {
                    0
                },
        ),
    decreases readings.len(),
{
    if readings.len() > 0 {
        each_thrown_reading_is_told(prev, readings.drop_last(), cfg);
    }
}

/// The next readings of an interface that is not left out are compared with what was read
/// last, where no count of it is thrown away.
pub proof fn the_baseline_is_what_was_read(
    prev: Map<Seq<char>, (u64, u64)>,
    readings: Seq<Reading>,
    cfg: Config,
    k: int,
)
    requires
        0 <= k < readings.len(),
        !matches_any(cfg.exclude_ifaces@, readings[k].iface@),
        forall|j: int| k < j < readings.len() ==> readings[j].iface@ != readings[k].iface@,
        !prev.contains_key(readings[k].iface@) || is_good(prev, readings[k], cfg),
    ensures
        baseline_after(prev, readings, cfg).contains_key(readings[k].iface@),
        baseline_after(prev, readings, cfg)[readings[k].iface@] == (
            readings[k].rx,
            readings[k].tx,
        ),
    decreases readings.len(),
{
    let fewer = readings.drop_last();
    let last = readings.len() - 1;
    if k < last {
        assert(readings[last].iface@ != readings[k].iface@);
        assert(fewer[k] == readings[k]);
        assert forall|j: int| k < j < fewer.len() implies fewer[j].iface@ != fewer[k].iface@ by {
            assert(readings[j].iface@ != readings[k].iface@);
        }
        the_baseline_is_what_was_read(prev, fewer, cfg, k);
    }
}

/// Only interfaces that were just read, and are not left out, are compared with anything at
/// the next tick.
pub proof fn only_what_was_read_is_compared(
    prev: Map<Seq<char>, (u64, u64)>,
    readings: Seq<Reading>,
    cfg: Config,
    name: Seq<char>,
)
    requires
        baseline_after(prev, readings, cfg).contains_key(name),
    ensures
        !matches_any(cfg.exclude_ifaces@, name),
        exists|k: int| 0 <= k < readings.len() && (#[trigger] readings[k]).iface@ == name,
    decreases readings.len(),
{
    if readings.len() > 0 {
        let fewer = readings.drop_last();
        if baseline_after(prev, fewer, cfg).contains_key(name) {
            only_what_was_read_is_compared(prev, fewer, cfg, name);
            let k = choose|k: int| 0 <= k < fewer.len() && (#[trigger] fewer[k]).iface@ == name;
            assert(readings[k].iface@ == name);
        } else {
            assert(readings[readings.len() - 1].iface@ == name);
        }
    }
}

/// What an interface has moved in some moves, received and sent.
pub open spec fn moved_by(v: Seq<Move>, name: Seq<char>) -> (int, int)
    decreases v.len(),
{
    if v.len() == 0 {
        (0, 0)
    } else {
        let before = moved_by(v.drop_last(), name);
        if v.last().iface == name {
            (before.0 + v.last().rx, before.1 + v.last().tx)
        } else {
            before
        }
    }
}

proof fn moved_by_update(v: Seq<Move>, i: int, m: Move, name: Seq<char>)
    requires
        0 <= i < v.len(),
        v[i].iface == m.iface,
    ensures
        moved_by(v.update(i, m), name) == if name == m.iface {
            (moved_by(v, name).0 - v[i].rx + m.rx, moved_by(v, name).1 - v[i].tx + m.tx)
        } else {
            moved_by(v, name)
        },
    decreases v.len(),
{
    let changed = v.update(i, m);
    if i == v.len() - 1 {
        assert(changed.drop_last() =~= v.drop_last());
    } else {
        moved_by_update(v.drop_last(), i, m, name);
        assert(changed.drop_last() =~= v.drop_last().update(i, m));
    }
}

/// Whether some moves hold at least so much for an interface.
pub open spec fn holds_at_least(v: Seq<Move>, m: Move) -> bool {
    exists|i: int|
        0 <= i < v.len() && (#[trigger] v[i]).iface == m.iface && v[i].rx >= m.rx && v[i].tx
            >= m.tx
}

/// Nothing that was moved is left out of what is held back or shown.
pub proof fn what_is_moved_is_gathered(held: Seq<Move>, more: Seq<Move>, k: int)
    requires
        no_debt(held),
        no_debt(more),
        0 <= k < more.len(),
    ensures
        holds_at_least(gathered(held, more), more[k]),
    decreases more.len(),
{
    let fewer = more.drop_last();
    let v = gathered(held, fewer);
    let m = more.last();
    let all = gathered(held, more);
    assert forall|i: int| 0 <= i < fewer.len() implies 0 <= (#[trigger] fewer[i]).rx && 0
        <= fewer[i].tx by {
        assert(0 <= more[i].rx);
    }
    held_bytes_are_kept(held, fewer);
    let at = place_in(v, m.iface) as int;
    place_in_is_first(v, m.iface);
    assert(0 <= more[more.len() - 1].rx && 0 <= more[more.len() - 1].tx);
    if k == more.len() - 1 {
        if at < v.len() {
            assert(0 <= v[at].rx && 0 <= v[at].tx);
            assert(all[at].iface == m.iface);
        } else {
            assert(all[v.len() as int] == m);
        }
    } else {
        what_is_moved_is_gathered(held, fewer, k);
        assert(fewer[k] == more[k]);
        let i = choose|i: int|
            0 <= i < v.len() && (#[trigger] v[i]).iface == more[k].iface && v[i].rx >= more[k].rx
                && v[i].tx >= more[k].tx;
        assert(all[i].iface == more[k].iface);
    }
}

/// Whether some sample is of an interface and shows at least so many bytes.
pub open spec fn has_sample(samples: Seq<Row>, name: Seq<char>, rx: int, tx: int) -> bool {
    exists|i: int|
        0 <= i < samples.len() && (#[trigger] samples[i]).iface@ == name && samples[i].rx >= rx
            && samples[i].tx >= tx
}

/// Bytes that are held back stay with the interface that moved them.
pub proof fn held_bytes_stay_with_their_interface(
    held: Seq<Move>,
    more: Seq<Move>,
    name: Seq<char>,
)
    ensures
        moved_by(gathered(held, more), name) == (
            moved_by(held, name).0 + moved_by(more, name).0,
            moved_by(held, name).1 + moved_by(more, name).1,
        ),
    decreases more.len(),
{
    if more.len() > 0 {
        held_bytes_stay_with_their_interface(held, more.drop_last(), name);
        let v = gathered(held, more.drop_last());
        let m = more.last();
        let at = place_in(v, m.iface) as int;
        place_in_is_first(v, m.iface);
        if at < v.len() {
            moved_by_update(
                v,
                at,
                Move { iface: m.iface, rx: v[at].rx + m.rx, tx: v[at].tx + m.tx },
                name,
            );
        } else {
            assert(v.push(m).drop_last() =~= v);
        }
    }
}

/// The samples show at one time what was moved, interface by interface, each with its own
/// counts; on an interface that is forced to be local all of it is local, on another no
/// more than it moved.
pub proof fn samples_show_what_was_moved(
    samples: Seq<Row>,
    v: Seq<Move>,
    lan: (int, int),
    cfg: Config,
    now: i64,
    i: int,
)
    requires
        are_samples(samples, v, lan, cfg, now),
        0 <= i < samples.len(),
    ensures
        samples.len() == v.len(),
        samples[i].ts == now,
        samples[i].iface@ == v[i].iface,
        samples[i].rx == v[i].rx,
        samples[i].tx == v[i].tx,
        0 <= samples[i].lan_rx <= samples[i].rx,
        0 <= samples[i].lan_tx <= samples[i].tx,
        matches_any(cfg.force_lan_ifaces@, samples[i].iface@) ==> samples[i].lan_rx
            == samples[i].rx && samples[i].lan_tx == samples[i].tx,
{
}

/// Local counters that grew by no more than a tick can carry have moved what they grew by,
/// received and sent, and the next ones are compared with them.
pub proof fn local_growth_is_moved(old: (u64, u64), new: (u64, u64), max: u64)
    requires
        old.0 <= new.0 <= old.0 + max,
        old.1 <= new.1 <= old.1 + max,
    ensures
        lan_moved(Some(old), Some(new), max) == (new.0 - old.0, new.1 - old.1),
        lan_baseline(Some(old), Some(new), max) == Some(new),
        !lan_thrown(Some(old), Some(new), max),
{
}

/// A leap of a local counter is thrown away, whichever of the two it is.
pub proof fn a_local_leap_is_thrown_away(old: (u64, u64), new: (u64, u64), max: u64)
    requires
        new.0 - old.0 > max || new.1 - old.1 > max,
    ensures
        lan_thrown(Some(old), Some(new), max),
{
}

/// A machine that slept is noticed from more than two intervals on: the first second above
/// twice the interval is a gap, and no second up to it is.
pub proof fn a_gap_is_two_intervals(gap: u64, cfg: Config)
    requires
        cfg.poll_interval_sec >= 1,
    ensures
        gap <= cfg.poll_interval_sec ==> !is_gap(gap, cfg),
        is_gap(gap, cfg) <==> gap - cfg.poll_interval_sec > cfg.poll_interval_sec,
{
}

/// An interface with a count that is thrown away keeps the counters from before, so that
/// the next reading is compared with them, and has moved nothing.
pub proof fn a_spike_keeps_the_baseline(
    prev: Map<Seq<char>, (u64, u64)>,
    readings: Seq<Reading>,
    cfg: Config,
    k: int,
)
    requires
        0 <= k < readings.len(),
        forall|i: int, j: int|
            0 <= i < j < readings.len() ==> readings[i].iface@ != readings[j].iface@,
        is_thrown(prev, readings[k], cfg),
    ensures
        ({
            let name = readings[k].iface@;
            let after = baseline_after(prev, readings, cfg);
            &&& after.contains_key(name) && after[name] == prev[name]
            &&& forall|i: int|
                0 <= i < moves(prev, readings, cfg).len() ==> (#[trigger] moves(
                    prev,
                    readings,
                    cfg,
                )[i]).iface != name
        }),
    decreases readings.len(),
{
    let name = readings[k].iface@;
    let fewer = readings.drop_last();
    if k == readings.len() - 1 {
        assert forall|i: int| 0 <= i < moves(prev, fewer, cfg).len() implies (#[trigger] moves(
            prev,
            fewer,
            cfg,
        )[i]).iface != name by {
            only_known_interfaces_move(prev, fewer, cfg, i);
            let w = choose|w: int|
                0 <= w < fewer.len() && (#[trigger] fewer[w]).iface@ == moves(
                    prev,
                    fewer,
                    cfg,
                )[i].iface;
            assert(readings[w].iface@ != readings[k].iface@);
        }
    } else {
        assert(fewer[k] == readings[k]);
        assert forall|i: int, j: int| 0 <= i < j < fewer.len() implies fewer[i].iface@
            != fewer[j].iface@ by {
            assert(readings[i].iface@ != readings[j].iface@);
        }
        a_spike_keeps_the_baseline(prev, fewer, cfg, k);
        assert(readings[k].iface@ != readings[readings.len() - 1].iface@);
        let (all, before) = (moves(prev, readings, cfg), moves(prev, fewer, cfg));
        assert forall|i: int| 0 <= i < all.len() implies (#[trigger] all[i]).iface != name by {
            if i < before.len() {
                assert(all[i] == before[i]);
            }
        }
    }
}

/// With nothing held back, what the samples show is what the interfaces have moved since
/// the last tick.
pub proof fn nothing_held_nothing_added(
    prev: Map<Seq<char>, (u64, u64)>,
    readings: Seq<Reading>,
    cfg: Config,
)
    requires
        forall|i: int, j: int|
            0 <= i < j < readings.len() ==> readings[i].iface@ != readings[j].iface@,
    ensures
        gathered(Seq::empty(), moves(prev, readings, cfg)) == moves(prev, readings, cfg),
    decreases readings.len(),
{
    if readings.len() > 0 {
        let fewer = readings.drop_last();
        let before = moves(prev, fewer, cfg);
        let all = moves(prev, readings, cfg);
        assert forall|i: int, j: int| 0 <= i < j < fewer.len() implies fewer[i].iface@
            != fewer[j].iface@ by {
            assert(readings[i].iface@ != readings[j].iface@);
        }
        nothing_held_nothing_added(prev, fewer, cfg);
        if all.len() > before.len() {
            assert(all.drop_last() =~= before);
            let name = readings.last().iface@;
            place_in_is_first(before, name);
            let at = place_in(before, name) as int;
            if at < before.len() {
                only_known_interfaces_move(prev, fewer, cfg, at);
                let w = choose|w: int| 0 <= w < fewer.len() && (#[trigger] fewer[w]).iface@ == name;
                assert(readings[w].iface@ != readings[readings.len() - 1].iface@);
            }
        }
    }
}

/// Local counters with a count that is thrown away stay what they were, and nothing counts
/// as moved.
pub proof fn a_local_spike_keeps_the_baseline(
    prev: Option<(u64, u64)>,
    now: Option<(u64, u64)>,
    max: u64,
)
    requires
        lan_thrown(prev, now, max),
    ensures
        lan_moved(prev, now, max) == (0int, 0int),
        lan_baseline(prev, now, max) == prev,
{
}

proof fn place_in_is_the_only_one(v: Seq<Move>, name: Seq<char>, i: int)
    requires
        0 <= i < v.len(),
        i < place_in(v, name) || place_in(v, name) == v.len(),
    ensures
        v[i].iface != name,
    decreases v.len(),
{
    place_in_is_first(v.drop_first(), name);
    if v[0].iface != name && i > 0 {
        place_in_is_the_only_one(v.drop_first(), name, i - 1);
    }
}

/// What is held back or shown after any tick counts: no interface that is left out, none
/// twice, and none without bytes, whatever was read and however often bytes were held
/// back.
pub proof fn only_what_counts_is_gathered(
    held: Seq<Move>,
    prev: Map<Seq<char>, (u64, u64)>,
    readings: Seq<Reading>,
    cfg: Config,
)
    requires
        are_counted(held, cfg),
    ensures
        are_counted(gathered(held, moves(prev, readings, cfg)), cfg),
    decreases readings.len(),
{
    if readings.len() > 0 {
        let fewer = readings.drop_last();
        let (before, all) = (moves(prev, fewer, cfg), moves(prev, readings, cfg));
        only_what_counts_is_gathered(held, prev, fewer, cfg);
        if all.len() > before.len() {
            let v = gathered(held, before);
            let m = all.last();
            assert(all.drop_last() =~= before);
            let w = with_move(v, m);
            let at = place_in(v, m.iface) as int;
            place_in_is_first(v, m.iface);
            if at == v.len() {
                assert forall|i: int| 0 <= i < v.len() implies (#[trigger] v[i]).iface
                    != m.iface by {
                    place_in_is_the_only_one(v, m.iface, i);
                }
            }
            assert forall|i: int| 0 <= i < w.len() implies !matches_any(
                cfg.exclude_ifaces@,
                (#[trigger] w[i]).iface,
            ) && 0 <= w[i].rx && 0 <= w[i].tx && 0 < w[i].rx + w[i].tx by {
                if i < v.len() {
                    assert(0 <= v[i].rx);
                }
            }
            assert forall|i: int, j: int| 0 <= i < j < w.len() implies w[i].iface
                != w[j].iface by {
                if j < v.len() {
                    assert(v[i].iface != v[j].iface);
                } else {
                    assert(v[i].iface != m.iface);
                }
            }
        }
    }
}

/// An interface that has moved anything is not left out, and was read at the last tick
/// and at this one.
pub proof fn only_known_interfaces_move(
    prev: Map<Seq<char>, (u64, u64)>,
    readings: Seq<Reading>,
    cfg: Config,
    i: int,
)
    requires
        0 <= i < moves(prev, readings, cfg).len(),
    ensures
        ({
            let name = moves(prev, readings, cfg)[i].iface;
            &&& !matches_any(cfg.exclude_ifaces@, name)
            &&& prev.contains_key(name)
            &&& exists|k: int| 0 <= k < readings.len() && (#[trigger] readings[k]).iface@ == name
        }),
    decreases readings.len(),
{
    let fewer = readings.drop_last();
    let before = moves(prev, fewer, cfg);
    if i < before.len() {
        only_known_interfaces_move(prev, fewer, cfg, i);
        let name = before[i].iface;
        let k = choose|k: int| 0 <= k < fewer.len() && (#[trigger] fewer[k]).iface@ == name;
        assert(readings[k] == fewer[k]);
    } else {
        assert(readings[readings.len() - 1].iface@ == moves(prev, readings, cfg)[i].iface);
    }
}

/// Nothing is counted at the first tick, nor at the tick after a gap: without an earlier
/// reading no interface has moved anything.
pub proof fn nothing_moves_without_a_baseline(readings: Seq<Reading>, cfg: Config)
    ensures
        moves(Map::empty(), readings, cfg).len() == 0,
        thrown_away(Map::empty(), readings, cfg) == 0,
    decreases readings.len(),
{
    if readings.len() > 0 {
        nothing_moves_without_a_baseline(readings.drop_last(), cfg);
    }
}

/// In every sample the local and the outside bytes add up to the total; on an interface
/// that is forced to be local nothing is outside.
pub proof fn samples_split_exactly(
    samples: Seq<Row>,
    v: Seq<Move>,
    lan: (int, int),
    cfg: Config,
    now: i64,
    i: int,
)
    requires
        are_samples(samples, v, lan, cfg, now),
        0 <= i < samples.len(),
    ensures
        ({
            let r = samples[i];
            let wan = rest(r.rx as int, r.lan_rx as int) + rest(r.tx as int, r.lan_tx as int);
            &&& r.lan_rx + r.lan_tx + wan == r.rx + r.tx
            &&& matches_any(cfg.force_lan_ifaces@, r.iface@) ==> wan == 0
        }),
{
    lan_and_wan_make_the_total(samples[i]);
}

/// Where the local counters cannot be read, nothing counts as local but the traffic of
/// interfaces that are forced to be.
pub proof fn without_counters_nothing_is_local(
    samples: Seq<Row>,
    v: Seq<Move>,
    prev: Option<(u64, u64)>,
    lan_now: Option<(u64, u64)>,
    max: u64,
    cfg: Config,
    now: i64,
    i: int,
)
    requires
        prev is None || lan_now is None,
        are_samples(samples, v, lan_moved(prev, lan_now, max), cfg, now),
        0 <= i < samples.len(),
        !matches_any(cfg.force_lan_ifaces@, samples[i].iface@),
    ensures
        samples[i].lan_rx == 0,
        samples[i].lan_tx == 0,
{
    let total = (moved_rx(v), moved_tx(v));
    assert(is_sample(samples[i], v[i], (0int, 0int), total, cfg, now));
    part_of_nothing(quotient(int_double(v[i].rx as nat), int_double(total.0 as nat)));
    part_of_nothing(quotient(int_double(v[i].tx as nat), int_double(total.1 as nat)));
}

/// An interface that alone has moved anything has all the local bytes, as far as it has
/// moved as many.
pub proof fn a_lone_interface_has_all_local_bytes(lan: int, moved: int)
    requires
        0 <= lan < 0x20_0000_0000_0000,
        0 < moved < 0x20_0000_0000_0000,
    ensures
        lan_part(false, lan, moved, moved) == if lan <= moved {
            lan
        } else {
            moved
        },
{
    whole_part(lan as nat, moved as nat);
}

// ---- keeping count ----

/// How many counts were thrown away in all, after some more: the stored number, or none
/// where no number is stored.
pub open spec fn discarded_total(stored: Seq<char>, more: u64) -> int {
    match signed_value(stored) {
        Some(n) => n + more,
        None => more as int,
    }
}

/// The number of counts thrown away in all, as it is stored; nothing where it does not
/// fit.
pub fn add_discarded(stored: &str, more: u64) -> (r: Option<String>)
    ensures
        r is Some <==> more <= i64::MAX && fits(discarded_total(stored@, more)),
        r matches Some(s) ==> s@ == signed_decimal(discarded_total(stored@, more)),
{
    let chars = chars_of(stored);
    let count: i64 = match parse_signed(chars.as_slice()) {
        Some(n) => n,
        None => 0,
    };
    if more > i64::MAX as u64 {
        return None;
    }
    match count.checked_add(more as i64) {
        Some(total) => {
            let mut r = String::new();
            push_signed(&mut r, total);
            assert(r@ =~= signed_decimal(discarded_total(stored@, more)));
            Some(r)
        },
        None => None,
    }
}

/// The times before which rows are dropped.
pub struct Cutoffs {
    pub samples: i64,
    pub hourly: i64,
    pub proc_hourly: i64,
}

/// Some days before a time.
pub open spec fn days_before(now: int, days: int) -> int {
    now - days * 86400
}

/// The days that rows of programs are kept, at least one.
pub open spec fn proc_days(days: i64) -> int {
    if days < 1 {
        1
    } else {
        days as int
    }
}

fn cutoff(now: i64, days: i64) -> (r: Option<i64>)
    ensures
        r is Some <==> fits(days * 86400) && fits(days_before(now as int, days as int)),
        r matches Some(t) ==> t == days_before(now as int, days as int),
{
    match days.checked_mul(86400) {
        Some(span) => now.checked_sub(span),
        None => None,
    }
}

/// The times before which rows are dropped; nothing where one does not fit.
pub fn enforce_retention(cfg: &Config, now: i64) -> (r: Option<Cutoffs>)
    ensures
        r is Some <==> {
            &&& fits(cfg.retention_days_raw * 86400) && fits(
                days_before(now as int, cfg.retention_days_raw as int),
            )
            &&& fits(cfg.retention_days_hourly * 86400) && fits(
                days_before(now as int, cfg.retention_days_hourly as int),
            )
            &&& fits(proc_days(cfg.proc_retention_days) * 86400) && fits(
                days_before(now as int, proc_days(cfg.proc_retention_days)),
            )
        },
        r matches Some(c) ==> {
            &&& c.samples == days_before(now as int, cfg.retention_days_raw as int)
            &&& c.hourly == days_before(now as int, cfg.retention_days_hourly as int)
            &&& c.proc_hourly == days_before(now as int, proc_days(cfg.proc_retention_days))
        },
{
    let proc_keep: i64 = if cfg.proc_retention_days < 1 {
        1
    } else {
        cfg.proc_retention_days
    };
    match (
        cutoff(now, cfg.retention_days_raw),
        cutoff(now, cfg.retention_days_hourly),
        cutoff(now, proc_keep),
    ) {
        (Some(samples), Some(hourly), Some(proc_hourly)) => Some(
            Cutoffs { samples, hourly, proc_hourly },
        ),
        _ => None,
    }
}

/// Whether more than `limit` seconds have gone by.
pub open spec fn longer_than(secs: u64, nanos: u32, limit: int) -> bool {
    secs > limit || (secs == limit && nanos > 0)
}

/// Whether the rollups are due: more than an hour after the last ones.
pub fn rollup_due(secs: u64, nanos: u32) -> (r: bool)
    ensures
        r == longer_than(secs, nanos, 3600),
{
    secs > 3600 || (secs == 3600 && nanos > 0)
}

/// Whether old rows are to be dropped: more than an hour after the last time.
pub fn retention_due(secs: u64, nanos: u32) -> (r: bool)
    ensures
        r == longer_than(secs, nanos, 3600),
{
    secs > 3600 || (secs == 3600 && nanos > 0)
}

/// Whether to wait for the clock: it still stands before 2020, and there were fewer than
/// twelve looks at it.
pub fn wait_for_clock(looks: u32, now: i64) -> (r: bool)
    ensures
        r == (looks < 12 && now <= 1_577_836_800),
{
    looks < 12 && now <= 1_577_836_800
}

// ---- budgets ----

/// The bytes that count against a budget: those from and to outside, or all.
pub open spec fn used_bytes(wan_only: bool, rx: int, tx: int, lan_rx: int, lan_tx: int) -> int {
    if wan_only {
        rest(rx, lan_rx) + rest(tx, lan_tx)
    } else {
        rx + tx
    }
}

/// Whether the bytes that count against a budget can be worked out in 64 bits.
pub open spec fn used_fits(wan_only: bool, rx: int, tx: int, lan_rx: int, lan_tx: int) -> bool {
    &&& wan_only ==> fits(rx - lan_rx) && fits(tx - lan_tx)
    &&& fits(used_bytes(wan_only, rx, tx, lan_rx, lan_tx))
}

/// The bytes that count against a budget with a basis of "wan" or of all bytes; nothing
/// where they do not fit.
pub fn budget_used(basis: &str, rx: i64, tx: i64, lan_rx: i64, lan_tx: i64) -> (r: Option<i64>)
    ensures
        ({
            let wan_only = basis@ == "wan"@;
            let (a, b, c, d) = (rx as int, tx as int, lan_rx as int, lan_tx as int);
            &&& r is Some <==> used_fits(wan_only, a, b, c, d)
            &&& r matches Some(n) ==> n == used_bytes(wan_only, a, b, c, d)
        }),
{
    if same_text(basis, "wan") {
        match (rx.checked_sub(lan_rx), tx.checked_sub(lan_tx)) {
            (Some(a), Some(b)) => {
                let down: i64 = if a > 0 {
                    a
                } else {
                    0
                };
                let up: i64 = if b > 0 {
                    b
                } else {
                    0
                };
                down.checked_add(up)
            },
            _ => None,
        }
    } else {
        rx.checked_add(tx)
    }
}

/// Whether the use of a budget has reached a part of it.
pub open spec fn reached(used: int, budget: int, part: Double) -> bool {
    used >= 0 && quotient(int_double(used as nat), int_double(budget as nat)).units()
        >= part.units()
}

/// Four fifths, in double precision.
pub open spec fn four_fifths() -> Double {
    quotient(int_double(8), int_double(10))
}

/// Which marks a budget has newly reached.
pub struct Crossing {
    pub mark80: bool,
    pub mark100: bool,
}

/// Which marks of a budget are to be recorded: four fifths and the whole, each when it is
/// reached and was not recorded before. A budget of no bytes has none.
pub fn check_budget(used: i64, budget: i64, crossed80: i64, crossed100: i64) -> (r: Crossing)
    ensures
        is_crossing(r, used as int, budget as int, crossed80, crossed100),
        r.mark80 == (budget > 0 && crossed80 == 0 && reached(
            used as int,
            budget as int,
            four_fifths(),
        )),
        r.mark100 == (budget > 0 && crossed100 == 0 && reached(
            used as int,
            budget as int,
            int_double(1),
        )),
{
    if budget <= 0 || used < 0 {
        return Crossing { mark80: false, mark100: false };
    }
    let frac = over(of_int(used as u64), of_int(budget as u64));
    let mark = over(of_int(8), of_int(10));
    Crossing {
        mark80: crossed80 == 0 && at_least(frac, mark),
        mark100: crossed100 == 0 && at_least(frac, of_int(1)),
    }
}

/// A budget that is used up has been used by four fifths.
pub proof fn full_budget_is_past_the_first_mark(used: int, budget: int)
    requires
        reached(used, budget, int_double(1)),
    ensures
        reached(used, budget, four_fifths()),
{
    one_is_exact();
    eight_tenths_below_one();
}

/// A budget below two to the 53rd is used up just when as many bytes are used.
pub proof fn full_means_as_many_bytes(used: int, budget: int)
    requires
        0 <= used < 0x20_0000_0000_0000,
        0 < budget < 0x20_0000_0000_0000,
    ensures
        reached(used, budget, int_double(1)) <==> used >= budget,
{
    one_is_exact();
    quotient_reaches_one(used as nat, budget as nat);
}

/// What is logged when a mark of a budget is reached.
pub open spec fn crossing_text(
    percent: Seq<char>,
    period: Seq<char>,
    used: int,
    budget: int,
) -> Seq<char> {
    "NetMeter: "@ + percent + "% of "@ + adverb(period) + " budget used ("@ + signed_decimal(used)
        + "/"@ + signed_decimal(budget) + " bytes)"@
}

/// What is logged when a mark of a budget is reached.
pub fn crossing_message(percent: &str, period: &str, used: i64, budget: i64) -> (r: String)
    ensures
        r@ == crossing_text(percent@, period@, used as int, budget as int),
{
    let mut r = String::new();
    r.append("NetMeter: ");
    r.append(percent);
    r.append("% of ");
    r.append(period_adverb(period));
    r.append(" budget used (");
    push_signed(&mut r, used);
    r.append("/");
    push_signed(&mut r, budget);
    r.append(" bytes)");
    assert(r@ =~= crossing_text(percent@, period@, used as int, budget as int));
    r
}

// ---- programs ----

/// A number of 64 bits as one with a sign: the upper half counts as negative.
pub open spec fn as_signed(n: u64) -> int {
    if n < 0x8000_0000_0000_0000 {
        n as int
    } else {
        n - 0x1_0000_0000_0000_0000
    }
}

/// A number of 64 bits as one with a sign.
pub fn to_signed(n: u64) -> (r: i64)
    ensures
        r == as_signed(n),
{
    assert(n < 0x8000_0000_0000_0000 ==> n as i64 == n) by (bit_vector);
    assert(n >= 0x8000_0000_0000_0000 ==> n as i64 == n - 0x1_0000_0000_0000_0000) by (bit_vector);
    #[verifier::truncate]
    (n as i64)
}

/// What a program has received and sent.
pub struct AppBytes {
    pub comm: String,
    pub rx: u64,
    pub tx: u64,
}

/// What is stored of the bytes of a program, where there are any.
pub fn app_row(app: &AppBytes) -> (r: Option<(i64, i64)>)
    ensures
        r is Some <==> as_signed(app.rx) > 0 || as_signed(app.tx) > 0,
        r matches Some(b) ==> b.0 == as_signed(app.rx) && b.1 == as_signed(app.tx),
{
    let rx = to_signed(app.rx);
    let tx = to_signed(app.tx);
    if rx > 0 || tx > 0 {
        Some((rx, tx))
    } else {
        None
    }
}

// ---- limits, parts and marks ----

/// A link carries in a tick its megabits, eight to a byte, and a quarter more.
pub proof fn a_link_carries_its_bits(mbit: nat, seconds: nat)
    requires
        0 < mbit < 0x4000_0000,
        0 < seconds,
        mbit * seconds < 0x2_0000_0000,
    ensures
        32 * link_bytes(mbit, seconds) == 5 * (1_000_000 * (mbit * seconds)),
{
    let m = mbit * seconds;
    assert(0 < m && mbit <= m) by (nonlinear_arith)
        requires
            m == mbit * seconds,
            0 < mbit,
            0 < seconds,
    ;
    whole_products_are_exact(mbit, 1_000_000);
    whole_quotients_are_exact(mbit * 125_000, 8);
    assert((mbit * 125_000) * seconds == 4 * (31_250 * m)) by (nonlinear_arith)
        requires
            m == mbit * seconds,
    ;
    whole_products_are_exact(mbit * 125_000, seconds);
    a_quarter_more_is_exact(31_250 * m);
}

/// A speed file that holds a number tells the speed of the link; where there is none the
/// configured rate counts, and no link is slower than one.
pub proof fn speed_files_are_read(n: nat, otherwise: u64)
    requires
        1 <= n <= u64::MAX,
    ensures
        link_speed(Some(decimal(n) + seq!['\n']), otherwise) == n,
        otherwise >= 1 ==> link_speed(None, otherwise) == otherwise,
        link_speed(None, 0) == 1,
{
    numbers_are_read_back(n, u64::MAX as int);
    let t = decimal(n);
    visible_characters_are_no_space(t[0]);
    visible_characters_are_no_space(t.last());
    visible_characters_are_no_space('\n');
    only_white_space_is_trimmed(Seq::empty(), t, seq!['\n']);
    assert(Seq::<char>::empty() + t + seq!['\n'] =~= t + seq!['\n']);
}

/// The local bytes are shared by what the interfaces moved: the part of one is in whole
/// bytes what falls on its part of all, and never more than it moved.
pub proof fn local_bytes_are_shared(lan: int, part: int, total: int)
    requires
        0 < lan,
        0 < part <= total < 0x20_0000_0000_0000,
        lan * part < 0x4_0000_0000_0000,
    ensures
        ({
            let r = lan_part(false, lan, part, total);
            &&& 0 <= r <= part
            &&& r * total <= lan * part
            &&& r < part ==> lan * part <= (r + 1) * total
        }),
{
    let (a, b, c) = (part as nat, total as nat, lan as nat);
    assert(a * c == lan * part) by (nonlinear_arith)
        requires
            a == part,
            c == lan,
    ;
    parts_are_whole_parts(a, b, c);
    let n = whole(product(int_double(c), quotient(int_double(a), int_double(b))));
    if n > part {
        assert(part * total <= n * total) by (nonlinear_arith)
            requires
                part <= n,
                total > 0,
        ;
    }
}

/// On an interface that is forced to be local all bytes are; where nothing local was
/// counted, or nothing was moved, none are.
pub proof fn all_or_nothing_is_local(lan: int, part: int, total: int)
    requires
        0 <= part,
    ensures
        lan_part(true, lan, part, total) == part,
        lan_part(false, 0, part, total) == 0,
        total <= 0 ==> lan_part(false, lan, part, total) == 0,
{
    part_of_nothing(quotient(int_double(part as nat), int_double(total as nat)));
}

/// What is thrown away adds up, from a stored number as from none.
pub proof fn thrown_counts_add_up(n: int, more: u64, again: u64)
    requires
        fits(n),
        fits(n + more),
    ensures
        discarded_total(signed_decimal(n), more) == n + more,
        discarded_total(signed_decimal(discarded_total(signed_decimal(n), more)), again) == n + more
            + again,
        discarded_total(Seq::empty(), more) == more,
{
    integers_are_read_back(n);
    integers_are_read_back(n + more);
    only_digits_are_numbers(Seq::empty(), 10, u64::MAX as int);
}

/// Rows are kept for whole days before now, those of programs for one at least.
pub proof fn rows_are_kept_for_their_days(now: int, days: i64)
    ensures
        now - days_before(now, days as int) == 24 * 60 * 60 * days,
        proc_days(days) >= 1,
        days >= 1 ==> proc_days(days) == days,
{
    assert(24 * 60 * 60 * days == days * 86400) by (nonlinear_arith);
}

/// More than some seconds have gone by just where more than that many thousand million
/// nanoseconds have.
pub proof fn spans_count_their_nanoseconds(secs: u64, nanos: u32, limit: int)
    requires
        nanos < 1_000_000_000,
    ensures
        longer_than(secs, nanos, limit) <==> secs * 1_000_000_000 + nanos > limit * 1_000_000_000,
{
}

/// All bytes count against a budget, or those from and to outside: with the local ones they
/// make all, where no more is local than there is, and none are below zero.
pub proof fn used_bytes_are_counted(rx: int, tx: int, lan_rx: int, lan_tx: int)
    ensures
        used_bytes(false, rx, tx, lan_rx, lan_tx) == rx + tx,
        lan_rx <= rx && lan_tx <= tx ==> used_bytes(true, rx, tx, lan_rx, lan_tx) + lan_rx + lan_tx
            == rx + tx,
        lan_rx >= rx && lan_tx <= tx ==> used_bytes(true, rx, tx, lan_rx, lan_tx) == tx - lan_tx,
        lan_rx <= rx && lan_tx >= tx ==> used_bytes(true, rx, tx, lan_rx, lan_tx) == rx - lan_rx,
        lan_rx >= rx && lan_tx >= tx ==> used_bytes(true, rx, tx, lan_rx, lan_tx) == 0,
{
}

/// Four fifths of a budget are reached just where five times the use is four times the
/// budget or more; nothing is reached by less than none.
pub proof fn the_first_mark_is_at_four_fifths(used: int, budget: int)
    requires
        used < 0x2_0000_0000_0000,
        0 < budget < 0x2_0000_0000_0000,
    ensures
        reached(used, budget, four_fifths()) <==> 0 <= used && 5 * used >= 4 * budget,
{
    if used >= 0 {
        quotient_reaches_four_fifths(used as nat, budget as nat);
    }
}

/// A number below the upper half keeps its value as one with a sign; the others fall short
/// of it by all numbers of 64 bits.
pub proof fn the_upper_half_is_negative(n: u64)
    ensures
        n <= i64::MAX ==> as_signed(n) == n,
        n > i64::MAX ==> as_signed(n) + 0xffff_ffff_ffff_ffff + 1 == n && as_signed(n) < 0,
{
}

/// The next readings of an interface one of whose counts is thrown away are compared with
/// what these were compared with.
pub proof fn a_thrown_reading_keeps_its_baseline(
    prev: Map<Seq<char>, (u64, u64)>,
    readings: Seq<Reading>,
    cfg: Config,
    k: int,
)
    requires
        0 <= k < readings.len(),
        !matches_any(cfg.exclude_ifaces@, readings[k].iface@),
        forall|j: int| k < j < readings.len() ==> readings[j].iface@ != readings[k].iface@,
        prev.contains_key(readings[k].iface@),
        ({
            let max = tick_limit(cfg, text_in(readings[k].speed));
            let was = prev[readings[k].iface@];
            counted(was.0, readings[k].rx, max).1 || counted(was.1, readings[k].tx, max).1
        }),
    ensures
        baseline_after(prev, readings, cfg).contains_key(readings[k].iface@),
        baseline_after(prev, readings, cfg)[readings[k].iface@] == prev[readings[k].iface@],
    decreases readings.len(),
{
    let fewer = readings.drop_last();
    let last = readings.len() - 1;
    if k < last {
        assert(readings[last].iface@ != readings[k].iface@);
        assert(fewer[k] == readings[k]);
        assert forall|j: int| k < j < fewer.len() implies fewer[j].iface@ != fewer[k].iface@ by {
            assert(readings[j].iface@ != readings[k].iface@);
        }
        a_thrown_reading_keeps_its_baseline(prev, fewer, cfg, k);
    }
}

/// Local bytes that are held back add up with those moved since, over any number of ticks,
/// received and sent apart.
pub proof fn held_local_bytes_add_up(held: (u64, u64), a: (int, int), b: (int, int))
    requires
        0 <= a.0 && held.0 + a.0 <= u64::MAX,
        0 <= a.1 && held.1 + a.1 <= u64::MAX,
    ensures
        ({
            let once = lan_gathered(held, a);
            lan_gathered((once.0 as u64, once.1 as u64), b) == lan_gathered(
                held,
                (a.0 + b.0, a.1 + b.1),
            )
        }),
        lan_gathered((0, 0), a) == a,
        lan_gathered(held, (0, 0)) == (held.0 as int, held.1 as int),
{
}

/// A sample has its part of the local bytes, of those received by what was received and of
/// those sent by what was sent; on an interface that is forced to be local all are.
pub proof fn samples_have_their_part(
    row: Row,
    m: Move,
    lan: (int, int),
    total: (int, int),
    cfg: Config,
    now: i64,
)
    requires
        is_sample(row, m, lan, total, cfg, now),
        0 < m.rx <= total.0 < 0x20_0000_0000_0000,
        0 < m.tx <= total.1 < 0x20_0000_0000_0000,
        0 < lan.0 && lan.0 * m.rx < 0x4_0000_0000_0000,
        0 < lan.1 && lan.1 * m.tx < 0x4_0000_0000_0000,
    ensures
        row.ts == now && row.iface@ == m.iface && row.rx == m.rx && row.tx == m.tx,
        matches_any(cfg.force_lan_ifaces@, row.iface@) ==> row.lan_rx == row.rx && row.lan_tx
            == row.tx,
        !matches_any(cfg.force_lan_ifaces@, row.iface@) ==> {
            &&& row.lan_rx * total.0 <= lan.0 * row.rx
            &&& row.lan_tx * total.1 <= lan.1 * row.tx
            &&& row.lan_rx < row.rx ==> lan.0 * row.rx <= (row.lan_rx + 1) * total.0
            &&& row.lan_tx < row.tx ==> lan.1 * row.tx <= (row.lan_tx + 1) * total.1
        },
{
    local_bytes_are_shared(lan.0, m.rx, total.0);
    local_bytes_are_shared(lan.1, m.tx, total.1);
}

// ---- from one tick to the next ----

/// Whether a meter goes on from what it was to what it is by one tick, and tells `r`.
pub open spec fn ticks(
    was: Meter,
    is: Meter,
    cfg: Config,
    gap: u64,
    readings: Seq<Reading>,
    lan_now: Option<(u64, u64)>,
    lan_speed: Option<Seq<char>>,
    now: i64,
    r: Option<Tick>,
) -> bool {
    let prev = counter_map(was.prev@);
    let max = tick_limit(cfg, lan_speed);
    let v = gathered(held_moves(was.held@), moves(prev, readings, cfg));
    let lan = lan_gathered(was.held_lan, lan_moved(was.prev_lan, lan_now, max));
    if is_gap(gap, cfg) {
        &&& counter_map(is.prev@) == Map::<Seq<char>, (u64, u64)>::empty()
        &&& is.prev_lan == lan_now
        &&& is.last == was.last && is.held == was.held && is.held_lan == was.held_lan
        &&& r matches Some(t) && t.samples@.len() == 0 && t.discarded == 0
    } else {
        &&& counter_map(is.prev@) == baseline_after(prev, readings, cfg)
        &&& is.prev_lan == lan_baseline(was.prev_lan, lan_now, max)
        &&& r is Some <==> tick_fits(v, lan) && all_thrown(
            thrown_away(prev, readings, cfg),
            lan_thrown(was.prev_lan, lan_now, max),
        ) <= u64::MAX
        &&& r matches Some(t) ==> t.discarded == all_thrown(
            thrown_away(prev, readings, cfg),
            lan_thrown(was.prev_lan, lan_now, max),
        )
        &&& r is Some && now < was.last ==> {
            &&& r->0.samples@.len() == 0
            &&& is.last == was.last
            &&& held_moves(is.held@) == v
            &&& lan == (is.held_lan.0 as int, is.held_lan.1 as int)
        }
        &&& r is Some && now >= was.last ==> {
            &&& are_samples(r->0.samples@, v, lan, cfg, now)
            &&& is.held@.len() == 0
            &&& is.held_lan == (0u64, 0u64)
            &&& v.len() > 0 ==> is.last == now
            &&& v.len() == 0 ==> is.last == was.last
        }
    }
}

proof fn samples_sum(
    samples: Seq<Row>,
    v: Seq<Move>,
    lan: (int, int),
    cfg: Config,
    now: i64,
    n: int,
)
    requires
        are_samples(samples, v, lan, cfg, now),
        0 <= n <= v.len(),
    ensures
        sum_all(samples.take(n)).rx == moved_rx(v.take(n)),
        sum_all(samples.take(n)).tx == moved_tx(v.take(n)),
    decreases n,
{
    if n > 0 {
        samples_sum(samples, v, lan, cfg, now, n - 1);
        assert(samples.take(n).drop_last() =~= samples.take(n - 1));
        assert(v.take(n).drop_last() =~= v.take(n - 1));
        assert(samples.take(n).last() == samples[n - 1]);
        assert(v.take(n).last() == v[n - 1]);
    }
}

/// A tick loses no byte and makes up none: the samples, or what is held back while the
/// clock stands before the last samples, hold what was held before and all bytes that the
/// readings count.
#[verifier::spinoff_prover]
pub proof fn a_tick_keeps_every_byte(
    was: Meter,
    is: Meter,
    cfg: Config,
    gap: u64,
    readings: Seq<Reading>,
    lan_now: Option<(u64, u64)>,
    lan_speed: Option<Seq<char>>,
    now: i64,
    t: Tick,
)
    requires
        ticks(was, is, cfg, gap, readings, lan_now, lan_speed, now, Some(t)),
        !is_gap(gap, cfg),
    ensures
        ({
            let prev = counter_map(was.prev@);
            let rx = moved_rx(held_moves(was.held@)) + sum_over(readings, good_rx(prev, cfg));
            let tx = moved_tx(held_moves(was.held@)) + sum_over(readings, good_tx(prev, cfg));
            &&& sum_all(t.samples@).rx + moved_rx(held_moves(is.held@)) == rx
            &&& sum_all(t.samples@).tx + moved_tx(held_moves(is.held@)) == tx
            &&& now < was.last ==> t.samples@.len() == 0
            &&& now >= was.last ==> is.held@.len() == 0
        }),
{
    let prev = counter_map(was.prev@);
    let more = moves(prev, readings, cfg);
    let v = gathered(held_moves(was.held@), more);
    let lan = lan_gathered(
        was.held_lan,
        lan_moved(was.prev_lan, lan_now, tick_limit(cfg, lan_speed)),
    );
    held_bytes_are_kept(held_moves(was.held@), more);
    no_counted_byte_is_lost(prev, readings, cfg);
    if now >= was.last {
        samples_sum(t.samples@, v, lan, cfg, now, v.len() as int);
        assert(t.samples@.take(v.len() as int) =~= t.samples@);
        assert(v.take(v.len() as int) =~= v);
        assert(held_moves(is.held@) =~= Seq::empty());
    } else {
        assert(t.samples@ =~= Seq::empty());
    }
}

/// While the clock stands before the last samples the local bytes are held back, with those
/// that were; then none are.
pub proof fn a_tick_keeps_local_bytes(
    was: Meter,
    is: Meter,
    cfg: Config,
    gap: u64,
    readings: Seq<Reading>,
    old: (u64, u64),
    new: (u64, u64),
    lan_speed: Option<Seq<char>>,
    now: i64,
    t: Tick,
)
    requires
        ticks(was, is, cfg, gap, readings, Some(new), lan_speed, now, Some(t)),
        !is_gap(gap, cfg),
        was.prev_lan == Some(old),
        old.0 <= new.0 && new.0 - old.0 <= tick_limit(cfg, lan_speed),
        old.1 <= new.1 && new.1 - old.1 <= tick_limit(cfg, lan_speed),
    ensures
        is.prev_lan == Some(new),
        now < was.last ==> is.held_lan.0 == was.held_lan.0 + (new.0 - old.0) && is.held_lan.1
            == was.held_lan.1 + (new.1 - old.1),
        now >= was.last ==> is.held_lan == (0u64, 0u64),
{
    local_growth_is_moved(old, new, tick_limit(cfg, lan_speed));
}

/// After a gap nothing is counted, nor at the tick after it: the interfaces start anew.
pub proof fn nothing_counts_across_a_gap(
    was: Meter,
    is: Meter,
    next: Meter,
    cfg: Config,
    gap: u64,
    soon: u64,
    before: Seq<Reading>,
    readings: Seq<Reading>,
    lan_now: Option<(u64, u64)>,
    lan_then: Option<(u64, u64)>,
    lan_speed: Option<Seq<char>>,
    now: i64,
    then: i64,
    t: Tick,
    u: Tick,
)
    requires
        ticks(was, is, cfg, gap, before, lan_now, lan_speed, now, Some(t)),
        is_gap(gap, cfg),
        ticks(is, next, cfg, soon, readings, lan_then, lan_speed, then, Some(u)),
        !is_gap(soon, cfg),
        was.held@.len() == 0,
    ensures
        t.samples@.len() == 0,
        sum_all(u.samples@).rx == 0,
        sum_all(u.samples@).tx == 0,
        u.samples@.len() == 0,
{
    let empty = Map::<Seq<char>, (u64, u64)>::empty();
    nothing_moves_without_a_baseline(readings, cfg);
    assert(held_moves(is.held@) =~= Seq::empty());
    assert(moves(empty, readings, cfg) =~= Seq::empty());
    assert(gathered(held_moves(is.held@), Seq::empty()).len() == 0);
    assert(u.samples@ =~= Seq::empty());
}

/// Over two ticks the samples of an interface that only grew, by no more than a tick can
/// carry, hold just what it grew by from before the first tick to the second.
#[verifier::spinoff_prover]
pub proof fn two_ticks_count_the_growth(
    was: Meter,
    mid: Meter,
    is: Meter,
    cfg: Config,
    gaps: (u64, u64),
    first: Reading,
    second: Reading,
    lan: (Option<(u64, u64)>, Option<(u64, u64)>),
    lan_speed: Option<Seq<char>>,
    times: (i64, i64),
    t: Tick,
    u: Tick,
)
    requires
        ticks(was, mid, cfg, gaps.0, seq![first], lan.0, lan_speed, times.0, Some(t)),
        ticks(mid, is, cfg, gaps.1, seq![second], lan.1, lan_speed, times.1, Some(u)),
        !is_gap(gaps.0, cfg) && !is_gap(gaps.1, cfg),
        was.held@.len() == 0,
        was.last <= times.0 <= times.1,
        first.iface@ == second.iface@,
        !matches_any(cfg.exclude_ifaces@, first.iface@),
        counter_map(was.prev@).contains_key(first.iface@),
        ({
            let old = counter_map(was.prev@)[first.iface@];
            let (a, b) = (
                tick_limit(cfg, text_in(first.speed)),
                tick_limit(cfg, text_in(second.speed)),
            );
            &&& old.0 <= first.rx <= second.rx && old.1 <= first.tx <= second.tx
            &&& first.rx - old.0 <= a && first.tx - old.1 <= a
            &&& second.rx - first.rx <= b && second.tx - first.tx <= b
        }),
    ensures
        ({
            let old = counter_map(was.prev@)[first.iface@];
            &&& sum_all(t.samples@).rx + sum_all(u.samples@).rx == second.rx - old.0
            &&& sum_all(t.samples@).tx + sum_all(u.samples@).tx == second.tx - old.1
        }),
{
    let prev = counter_map(was.prev@);
    let next = counter_map(mid.prev@);
    let name = first.iface@;
    let (a, b) = (tick_limit(cfg, text_in(first.speed)), tick_limit(cfg, text_in(second.speed)));
    growth_counts_exactly(prev[name].0, first.rx, a);
    growth_counts_exactly(prev[name].1, first.tx, a);
    the_baseline_is_what_was_read(prev, seq![first], cfg, 0);
    growth_counts_exactly(first.rx, second.rx, b);
    growth_counts_exactly(first.tx, second.tx, b);
    a_tick_keeps_every_byte(was, mid, cfg, gaps.0, seq![first], lan.0, lan_speed, times.0, t);
    a_tick_keeps_every_byte(mid, is, cfg, gaps.1, seq![second], lan.1, lan_speed, times.1, u);
    assert(held_moves(was.held@) =~= Seq::empty());
    assert(held_moves(mid.held@) =~= Seq::empty());
    assert(held_moves(is.held@) =~= Seq::empty());
    assert(seq![first].drop_last() =~= Seq::empty());
    assert(seq![second].drop_last() =~= Seq::empty());
    sum_of_one(first, good_rx(prev, cfg));
    sum_of_one(first, good_tx(prev, cfg));
    sum_of_one(second, good_rx(next, cfg));
    sum_of_one(second, good_tx(next, cfg));
}

proof fn sum_of_one(r: Reading, f: spec_fn(Reading) -> int)
    ensures
        sum_over(seq![r], f) == f(r),
{
    assert(seq![r].drop_last() =~= Seq::empty());
    assert(sum_over(Seq::empty(), f) == 0);
}

/// Whether these are the marks to record of a use and a budget, by what was recorded.
pub open spec fn is_crossing(
    r: Crossing,
    used: int,
    budget: int,
    crossed80: i64,
    crossed100: i64,
) -> bool {
    &&& r.mark80 == (budget > 0 && crossed80 == 0 && reached(used, budget, four_fifths()))
    &&& r.mark100 == (budget > 0 && crossed100 == 0 && reached(used, budget, int_double(1)))
}

/// A mark is recorded just where it is reached and was not recorded: the first where five
/// times the use is four times the budget or more, the second where the use is the budget
/// or more. What was recorded for one mark does not bear on the other.
pub proof fn marks_are_recorded_once(
    r: Crossing,
    used: int,
    budget: int,
    crossed80: i64,
    crossed100: i64,
)
    requires
        is_crossing(r, used, budget, crossed80, crossed100),
        0 <= used < 0x2_0000_0000_0000,
        budget < 0x2_0000_0000_0000,
    ensures
        budget <= 0 ==> !r.mark80 && !r.mark100,
        crossed80 != 0 ==> !r.mark80,
        crossed100 != 0 ==> !r.mark100,
        budget > 0 && crossed80 == 0 ==> (r.mark80 <==> 5 * used >= 4 * budget),
        budget > 0 && crossed100 == 0 ==> (r.mark100 <==> used >= budget),
{
    if budget > 0 {
        the_first_mark_is_at_four_fifths(used, budget);
        full_means_as_many_bytes(used, budget);
    }
}

/// What is logged of a mark tells the use before the stroke and the budget behind it.
pub proof fn logged_marks_tell_use_and_budget(
    percent: Seq<char>,
    period: Seq<char>,
    used: int,
    budget: int,
)
    ensures
        ({
            let s = crossing_text(percent, period, used, budget);
            let (u, b) = (signed_decimal(used), signed_decimal(budget));
            let at = s.len() - 7 - b.len();
            &&& s.subrange(10, 10 + percent.len() as int) == percent
            &&& s.subrange(at, at + b.len()) == b
            &&& s[at - 1] == '/'
            &&& s.subrange(at - 1 - u.len(), at - 1) == u
        }),
{
    reveal_strlit("NetMeter: ");
    reveal_strlit("/");
    reveal_strlit(" bytes)");
    let s = crossing_text(percent, period, used, budget);
    let (u, b) = (signed_decimal(used), signed_decimal(budget));
    let at = s.len() - 7 - b.len();
    assert(s.subrange(10, 10 + percent.len() as int) =~= percent);
    assert(s.subrange(at, at + b.len()) =~= b);
    assert(s.subrange(at - 1 - u.len(), at - 1) =~= u);
}

proof fn few_are_thrown(
    prev: Map<Seq<char>, (u64, u64)>,
    readings: Seq<Reading>,
    cfg: Config,
)
    ensures
        thrown_away(prev, readings, cfg) <= readings.len(),
    decreases readings.len(),
{
    if readings.len() > 0 {
        few_are_thrown(prev, readings.drop_last(), cfg);
    }
}

/// A tick whose bytes, with those held back, are counts of 64 bits is always told.
pub proof fn ordinary_ticks_are_told(
    was: Meter,
    is: Meter,
    cfg: Config,
    gap: u64,
    readings: Seq<Reading>,
    lan_now: Option<(u64, u64)>,
    lan_speed: Option<Seq<char>>,
    now: i64,
    r: Option<Tick>,
)
    requires
        ticks(was, is, cfg, gap, readings, lan_now, lan_speed, now, r),
        readings.len() < u64::MAX,
        ({
            let prev = counter_map(was.prev@);
            let lan = lan_moved(was.prev_lan, lan_now, tick_limit(cfg, lan_speed));
            &&& moved_rx(held_moves(was.held@)) + sum_over(readings, good_rx(prev, cfg))
                <= i64::MAX
            &&& moved_tx(held_moves(was.held@)) + sum_over(readings, good_tx(prev, cfg))
                <= i64::MAX
            &&& was.held_lan.0 + lan.0 <= i64::MAX
            &&& was.held_lan.1 + lan.1 <= i64::MAX
        }),
    ensures
        r is Some,
{
    let prev = counter_map(was.prev@);
    held_bytes_are_kept(held_moves(was.held@), moves(prev, readings, cfg));
    no_counted_byte_is_lost(prev, readings, cfg);
    few_are_thrown(prev, readings, cfg);
}

/// A counter that fell, and was not reset, has wrapped round, at 64 bits if it stood above
/// 32, else at 32: what then went by is counted if a tick can carry it, else thrown away.
pub proof fn a_fall_is_a_wrap(old: u64, new: u64, max: u64, moved: int)
    requires
        new < old,
        new >= 0x10_0000 || (old < 0x1_0000_0000 && old + max >= 0x1_0000_0000),
        old > 0x1_0000_0000 ==> old + moved == new + 0x1_0000_0000_0000_0000,
        old <= 0x1_0000_0000 ==> old + moved == new + 0x1_0000_0000,
    ensures
        moved <= max ==> counted(old, new, max) == (moved, false),
        moved > max ==> counted(old, new, max) == (0int, true),
{
}

/// A tick tells how many readings were thrown away: one for each interface, and one more
/// where the local counters leapt.
pub proof fn a_tick_tells_what_was_thrown_away(
    was: Meter,
    is: Meter,
    cfg: Config,
    gap: u64,
    readings: Seq<Reading>,
    old: (u64, u64),
    new: (u64, u64),
    lan_speed: Option<Seq<char>>,
    now: i64,
    t: Tick,
)
    requires
        ticks(was, is, cfg, gap, readings, Some(new), lan_speed, now, Some(t)),
        !is_gap(gap, cfg),
        was.prev_lan == Some(old),
        old.0 <= new.0,
        old.1 <= new.1,
    ensures
        ({
            let max = tick_limit(cfg, lan_speed);
            let leapt = new.0 - old.0 > max || new.1 - old.1 > max;
            let thrown = thrown_away(counter_map(was.prev@), readings, cfg);
            &&& leapt ==> t.discarded == thrown + 1 && is.prev_lan == Some(old)
            &&& !leapt ==> t.discarded == thrown && is.prev_lan == Some(new)
        }),
{
}

} // verus!
