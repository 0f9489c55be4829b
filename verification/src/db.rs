//! Usage rows: what they add up to, the windows they fall into, and the rollups.
use crate::calendar::{
    clock, date_of, date_of_day_number, date_text, date_text_tells_days_apart, day_number,
    every_day_has_a_date, first_of_month, floor, floor_exists,
    hours_and_months_start_at_their_start, is_floor, is_utc, month_text, push_date, push_month,
    spans_have_their_length, spans_nest, start_exists, start_in, start_is_its_own_start, start_of,
    starts_at_midnight, time_zone, unit_start, unit_start_is_near, weeks_start_on_monday, Unit,
    FIRST_INSTANT, LAST_INSTANT,
};
use crate::text::same_text;
use vstd::arithmetic::div_mod::lemma_fundamental_div_mod_converse;
use vstd::prelude::*;
use vstd::string::*;

verus! {

pub const SCHEMA_VERSION: i32 = 1;

pub const API_VERSION: i32 = 1;

// ---- rows ----

/// Received and sent bytes of an interface over a sample or a bucket, and how many of
/// them were local.
#[derive(Debug, Clone)]
pub struct Row {
    pub ts: i64,
    pub iface: String,
    pub rx: i64,
    pub tx: i64,
    pub lan_rx: i64,
    pub lan_tx: i64,
}

/// The bytes that stay after a share is taken off, at least none.
pub open spec fn rest(all: int, part: int) -> int {
    if all - part > 0 {
        all - part
    } else {
        0
    }
}

/// Whether a number fits in a signed 64-bit integer.
pub open spec fn fits(n: int) -> bool {
    i64::MIN <= n <= i64::MAX
}

impl Default for Row {
    fn default() -> (r: Row)
        ensures
            r.ts == 0 && r.iface@ == Seq::<char>::empty(),
            r.rx == 0 && r.tx == 0 && r.lan_rx == 0 && r.lan_tx == 0,
    {
        Row { ts: 0, iface: String::new(), rx: 0, tx: 0, lan_rx: 0, lan_tx: 0 }
    }
}

impl Row {
    /// Whether the totals of the row fit in 64 bits.
    pub open spec fn small(self) -> bool {
        fits(self.rx + self.tx) && fits(self.rx - self.lan_rx) && fits(self.tx - self.lan_tx)
    }

    /// All bytes, received and sent.
    pub fn total(&self) -> (r: i64)
        requires
            fits(self.rx + self.tx),
        ensures
            r == self.rx + self.tx,
    {
        self.rx + self.tx
    }

    /// The bytes received from outside the local networks.
    pub fn wan_rx(&self) -> (r: i64)
        requires
            fits(self.rx - self.lan_rx),
        ensures
            r == rest(self.rx as int, self.lan_rx as int),
    {
        let d = self.rx - self.lan_rx;
        if d > 0 {
            d
        } else {
            0
        }
    }

    /// The bytes sent to outside the local networks.
    pub fn wan_tx(&self) -> (r: i64)
        requires
            fits(self.tx - self.lan_tx),
        ensures
            r == rest(self.tx as int, self.lan_tx as int),
    {
        let d = self.tx - self.lan_tx;
        if d > 0 {
            d
        } else {
            0
        }
    }
}

/// Local and outside bytes add up to the total, where no more is local than there is.
pub proof fn lan_and_wan_make_the_total(r: Row)
    requires
        0 <= r.lan_rx <= r.rx,
        0 <= r.lan_tx <= r.tx,
    ensures
        r.lan_rx + r.lan_tx + rest(r.rx as int, r.lan_rx as int) + rest(
            r.tx as int,
            r.lan_tx as int,
        ) == r.rx + r.tx,
{
}

/// The four byte counts of a row.
pub struct Bytes {
    pub rx: int,
    pub tx: int,
    pub lan_rx: int,
    pub lan_tx: int,
}

/// The byte counts of a row.
pub open spec fn bytes_of(r: Row) -> Bytes {
    Bytes { rx: r.rx as int, tx: r.tx as int, lan_rx: r.lan_rx as int, lan_tx: r.lan_tx as int }
}

/// Two byte counts added up.
pub open spec fn plus(a: Bytes, b: Bytes) -> Bytes {
    Bytes {
        rx: a.rx + b.rx,
        tx: a.tx + b.tx,
        lan_rx: a.lan_rx + b.lan_rx,
        lan_tx: a.lan_tx + b.lan_tx,
    }
}

/// No bytes.
pub open spec fn none() -> Bytes {
    Bytes { rx: 0, tx: 0, lan_rx: 0, lan_tx: 0 }
}

/// Whether each of the four counts fits in 64 bits.
pub open spec fn all_fit(b: Bytes) -> bool {
    fits(b.rx) && fits(b.tx) && fits(b.lan_rx) && fits(b.lan_tx)
}

/// The bytes of the rows that a test picks.
pub open spec fn sum_where(rows: Seq<Row>, pick: spec_fn(Row) -> bool) -> Bytes
    decreases rows.len(),
{
    if rows.len() == 0 {
        none()
    } else {
        let before = sum_where(rows.drop_last(), pick);
        if pick(rows.last()) {
            plus(before, bytes_of(rows.last()))
        } else {
            before
        }
    }
}

/// The bytes of all rows.
pub open spec fn sum_all(rows: Seq<Row>) -> Bytes {
    sum_where(rows, |r: Row| true)
}

/// Adds the bytes of one row to another; false, and nothing done, where a count would
/// not fit.
fn add_bytes(to: &mut Row, r: &Row) -> (ok: bool)
    ensures
        ok == all_fit(plus(bytes_of(*old(to)), bytes_of(*r))),
        final(to).ts == old(to).ts,
        final(to).iface@ == old(to).iface@,
        ok ==> bytes_of(*final(to)) == plus(bytes_of(*old(to)), bytes_of(*r)),
{
    let rx = to.rx.checked_add(r.rx);
    let tx = to.tx.checked_add(r.tx);
    let lan_rx = to.lan_rx.checked_add(r.lan_rx);
    let lan_tx = to.lan_tx.checked_add(r.lan_tx);
    match (rx, tx, lan_rx, lan_tx) {
        (Some(a), Some(b), Some(c), Some(d)) => {
            to.rx = a;
            to.tx = b;
            to.lan_rx = c;
            to.lan_tx = d;
            true
        },
        _ => false,
    }
}

// ---- buckets ----

/// Picks the rows whose span starts at `start`.
pub open spec fn in_span(zone: jiff::tz::TimeZone, unit: Unit, start: int) -> spec_fn(Row) -> bool {
    |r: Row| start_in(zone, unit, r.ts as int) == start
}

/// Whether the span of every row has a start.
pub open spec fn starts_exist(rows: Seq<Row>, zone: jiff::tz::TimeZone, unit: Unit) -> bool {
    forall|i: int|
        0 <= i < rows.len() ==> start_exists(zone, unit, (#[trigger] rows[i]).ts as int)
}

/// Whether the running sums of every span fit.
pub open spec fn spans_fit(rows: Seq<Row>, zone: jiff::tz::TimeZone, unit: Unit) -> bool {
    forall|n: int, start: int|
        0 <= n <= rows.len() ==> all_fit(
            #[trigger] sum_where(rows.take(n), in_span(zone, unit, start)),
        )
}

/// Whether `out` holds one row for each span that `rows` touch, in order of time, with
/// the bytes of the rows in that span.
pub open spec fn is_bucketed(
    out: Seq<Row>,
    rows: Seq<Row>,
    zone: jiff::tz::TimeZone,
    unit: Unit,
) -> bool {
    &&& forall|i: int, j: int| 0 <= i < j < out.len() ==> out[i].ts < out[j].ts
    &&& forall|i: int|
        0 <= i < out.len() ==> (#[trigger] out[i]).iface@ == "_all"@ && bytes_of(out[i])
            == sum_where(rows, in_span(zone, unit, out[i].ts as int))
    &&& forall|i: int|
        0 <= i < rows.len() ==> has_start(
            out,
            start_in(zone, unit, (#[trigger] rows[i]).ts as int),
        )
    &&& forall|i: int|
        0 <= i < out.len() ==> has_origin(rows, zone, unit, (#[trigger] out[i]).ts as int)
}

/// Whether some row lies in the span that starts at `start`.
pub open spec fn has_origin(
    rows: Seq<Row>,
    zone: jiff::tz::TimeZone,
    unit: Unit,
    start: int,
) -> bool {
    exists|k: int|
        0 <= k < rows.len() && start_in(zone, unit, (#[trigger] rows[k]).ts as int) == start
}

/// Whether some row starts at `start`.
pub open spec fn has_start(out: Seq<Row>, start: int) -> bool {
    exists|i: int| 0 <= i < out.len() && (#[trigger] out[i]).ts == start
}

proof fn sum_where_step(rows: Seq<Row>, n: int, pick: spec_fn(Row) -> bool)
    requires
        0 <= n < rows.len(),
    ensures
        sum_where(rows.take(n + 1), pick) == if pick(rows[n]) {
            plus(sum_where(rows.take(n), pick), bytes_of(rows[n]))
        } else {
            sum_where(rows.take(n), pick)
        },
{
    assert(rows.take(n + 1).drop_last() =~= rows.take(n));
    assert(rows.take(n + 1).last() == rows[n]);
}

proof fn sum_where_none(rows: Seq<Row>, pick: spec_fn(Row) -> bool)
    requires
        forall|i: int| 0 <= i < rows.len() ==> !pick(#[trigger] rows[i]),
    ensures
        sum_where(rows, pick) == none(),
    decreases rows.len(),
{
    if rows.len() > 0 {
        assert(!pick(rows[rows.len() - 1]));
        assert forall|i: int| 0 <= i < rows.drop_last().len() implies !pick(
            #[trigger] rows.drop_last()[i],
        ) by {
            assert(rows.drop_last()[i] == rows[i]);
        }
        sum_where_none(rows.drop_last(), pick);
    }
}

proof fn spans_fit_step(rows: Seq<Row>, n: int, zone: jiff::tz::TimeZone, unit: Unit)
    requires
        0 <= n < rows.len(),
        spans_fit(rows.take(n), zone, unit),
        all_fit(
            sum_where(
                rows.take(n + 1),
                in_span(zone, unit, start_in(zone, unit, rows[n].ts as int)),
            ),
        ),
    ensures
        spans_fit(rows.take(n + 1), zone, unit),
{
    assert forall|k: int, start: int| 0 <= k <= rows.take(n + 1).len() implies all_fit(
        #[trigger] sum_where(rows.take(n + 1).take(k), in_span(zone, unit, start)),
    ) by {
        if k <= n {
            assert(rows.take(n + 1).take(k) =~= rows.take(n).take(k));
            assert(all_fit(sum_where(rows.take(n).take(k), in_span(zone, unit, start))));
        } else {
            assert(rows.take(n + 1).take(k) =~= rows.take(n + 1));
            assert(rows.take(n).take(n) =~= rows.take(n));
            assert(all_fit(sum_where(rows.take(n).take(n), in_span(zone, unit, start))));
            sum_where_step(rows, n, in_span(zone, unit, start));
        }
    }
}

/// Whether rows are in order of time, each at its own time.
pub open spec fn in_order(rows: Seq<Row>) -> bool {
    forall|i: int, j: int| 0 <= i < j < rows.len() ==> rows[i].ts < rows[j].ts
}

/// Finds the row that starts at `start`, or puts an empty one in its place.
fn slot(out: &mut Vec<Row>, start: i64) -> (at: usize)
    requires
        in_order(old(out)@),
    ensures
        at < final(out)@.len(),
        final(out)@[at as int].ts == start,
        has_start(old(out)@, start as int) ==> final(out)@ == old(out)@,
        !has_start(old(out)@, start as int) ==> {
            &&& at <= old(out)@.len()
            &&& final(out)@ == old(out)@.insert(at as int, final(out)@[at as int])
            &&& final(out)@[at as int].iface@ == "_all"@
            &&& bytes_of(final(out)@[at as int]) == none()
        },
        in_order(final(out)@),
{
    let mut pos: usize = out.len();
    while pos > 0 && out[pos - 1].ts > start
        invariant
            pos <= out.len(),
            forall|k: int| pos <= k < out.len() ==> (#[trigger] out@[k]).ts > start,
        decreases pos,
    {
        pos = pos - 1;
    }
    if pos > 0 && out[pos - 1].ts == start {
        let at = pos - 1;
        assert(out@[at as int].ts == start);
        return at;
    }
    assert(!has_start(out@, start as int));
    let fresh = Row { ts: start, iface: "_all".to_owned(), rx: 0, tx: 0, lan_rx: 0, lan_tx: 0 };
    out.insert(pos, fresh);
    pos
}

/// Whether `out` is `held` with the bytes of `r` added to the row at `at`, which is a
/// new one where no row of `held` starts there.
spec fn is_added(held: Seq<Row>, out: Seq<Row>, at: int, r: Row) -> bool {
    &&& 0 <= at < out.len()
    &&& out[at].iface@ == "_all"@
    &&& if has_start(held, out[at].ts as int) {
        &&& out.len() == held.len()
        &&& held[at].ts == out[at].ts
        &&& bytes_of(out[at]) == plus(bytes_of(held[at]), bytes_of(r))
        &&& forall|k: int| 0 <= k < out.len() && k != at ==> out[k] == held[k]
    } else {
        &&& out.len() == held.len() + 1
        &&& bytes_of(out[at]) == bytes_of(r)
        &&& forall|k: int| 0 <= k < at ==> out[k] == held[k]
        &&& forall|k: int| at < k < out.len() ==> out[k] == held[k - 1]
    }
}

proof fn bucket_step(
    held: Seq<Row>,
    out: Seq<Row>,
    at: int,
    rows: Seq<Row>,
    n: int,
    zone: jiff::tz::TimeZone,
    unit: Unit,
)
    requires
        0 <= n < rows.len(),
        is_bucketed(held, rows.take(n), zone, unit),
        in_order(out),
        is_added(held, out, at, rows[n]),
        out[at].ts == start_in(zone, unit, rows[n].ts as int),
    ensures
        is_bucketed(out, rows.take(n + 1), zone, unit),
{
    let before = rows.take(n);
    let after = rows.take(n + 1);
    let start = out[at].ts as int;
    assert forall|k: int| 0 <= k < out.len() implies (#[trigger] out[k]).iface@ == "_all"@
        && bytes_of(out[k]) == sum_where(after, in_span(zone, unit, out[k].ts as int)) by {
        sum_where_step(rows, n, in_span(zone, unit, out[k].ts as int));
        if k == at {
            if !has_start(held, start) {
                let pick = in_span(zone, unit, start);
                assert forall|w: int| 0 <= w < before.len() implies !pick(#[trigger] before[w]) by {
                    assert(has_start(held, start_in(zone, unit, before[w].ts as int)));
                }
                sum_where_none(before, pick);
            }
        } else if has_start(held, start) || k < at {
            assert(out[k] == held[k]);
        } else {
            assert(out[k] == held[k - 1]);
        }
    }
    assert forall|k: int| 0 <= k < after.len() implies has_start(
        out,
        start_in(zone, unit, (#[trigger] after[k]).ts as int),
    ) by {
        if k < n {
            assert(before[k] == after[k]);
            let s = start_in(zone, unit, before[k].ts as int);
            assert(has_start(held, s));
            let w = choose|w: int| 0 <= w < held.len() && (#[trigger] held[w]).ts == s;
            if has_start(held, start) || w < at {
                assert(out[w].ts == held[w].ts);
            } else {
                assert(out[w + 1].ts == held[w].ts);
            }
        } else {
            assert(out[at].ts == start);
        }
    }
    assert forall|k: int| 0 <= k < out.len() implies has_origin(
        after,
        zone,
        unit,
        (#[trigger] out[k]).ts as int,
    ) by {
        if k == at {
            assert(after[n] == rows[n]);
        } else {
            let h = if has_start(held, start) || k < at {
                k
            } else {
                k - 1
            };
            assert(out[k] == held[h]);
            let w = choose|w: int|
                0 <= w < before.len() && start_in(zone, unit, (#[trigger] before[w]).ts as int)
                    == held[h].ts;
            assert(after[w] == before[w]);
        }
    }
}

/// The rows added up by spans of civil time, in order of time; nothing where a span has
/// no start or a sum does not fit.
pub fn bucket(rows: &Vec<Row>, unit: Unit, zone: &jiff::tz::TimeZone) -> (r: Option<Vec<Row>>)
    ensures
        r is Some <==> starts_exist(rows@, *zone, unit) && spans_fit(rows@, *zone, unit),
        r matches Some(out) ==> is_bucketed(out@, rows@, *zone, unit),
{
    let mut out: Vec<Row> = Vec::new();
    let mut i: usize = 0;
    proof {
        assert forall|k: int, start: int| 0 <= k <= rows@.take(0).len() implies all_fit(
            #[trigger] sum_where(rows@.take(0).take(k), in_span(*zone, unit, start)),
        ) by {
            assert(rows@.take(0).take(k).len() == 0);
        }
    }
    while i < rows.len()
        invariant
            i <= rows.len(),
            forall|k: int|
                0 <= k < i ==> start_exists(*zone, unit, (#[trigger] rows@[k]).ts as int),
            spans_fit(rows@.take(i as int), *zone, unit),
            is_bucketed(out@, rows@.take(i as int), *zone, unit),
        decreases rows.len() - i,
    {
        let r = &rows[i];
        let start = match start_of(unit, r.ts, zone) {
            Some(t) => t,
            None => {
                return None;
            },
        };
        let ghost held = out@;
        let ghost pick = in_span(*zone, unit, start as int);
        let at = slot(&mut out, start);
        let ghost had = out@;
        proof {
            sum_where_step(rows@, i as int, pick);
            if !has_start(held, start as int) {
                let before = rows@.take(i as int);
                assert forall|w: int| 0 <= w < before.len() implies !pick(#[trigger] before[w]) by {
                    assert(has_start(held, start_in(*zone, unit, before[w].ts as int)));
                }
                sum_where_none(before, pick);
            }
            assert(bytes_of(had[at as int]) == sum_where(rows@.take(i as int), pick));
        }
        if !add_bytes(&mut out[at], r) {
            assert(!all_fit(sum_where(rows@.take(i + 1), pick)));
            return None;
        }
        proof {
            assert(is_added(held, out@, at as int, *r));
            bucket_step(held, out@, at as int, rows@, i as int, *zone, unit);
            spans_fit_step(rows@, i as int, *zone, unit);
        }
        i = i + 1;
    }
    assert(rows@.take(i as int) =~= rows@);
    Some(out)
}

// ---- nothing is lost in buckets ----

/// The bytes of the rows with each of some keys, added up.
pub open spec fn sum_by<K>(keys: Seq<K>, rows: Seq<Row>, key: spec_fn(Row) -> K) -> Bytes
    decreases keys.len(),
{
    if keys.len() == 0 {
        none()
    } else {
        plus(
            sum_by(keys.drop_last(), rows, key),
            sum_where(rows, |r: Row| key(r) == keys.last()),
        )
    }
}

proof fn sum_where_same(rows: Seq<Row>, p: spec_fn(Row) -> bool, q: spec_fn(Row) -> bool)
    requires
        forall|r: Row| #[trigger] p(r) == q(r),
    ensures
        sum_where(rows, p) == sum_where(rows, q),
    decreases rows.len(),
{
    if rows.len() > 0 {
        sum_where_same(rows.drop_last(), p, q);
        assert(p(rows.last()) == q(rows.last()));
    }
}

proof fn sum_by_last<K>(keys: Seq<K>, rows: Seq<Row>, key: spec_fn(Row) -> K)
    requires
        rows.len() > 0,
        keys.no_duplicates(),
    ensures
        sum_by(keys, rows, key) == if keys.contains(key(rows.last())) {
            plus(sum_by(keys, rows.drop_last(), key), bytes_of(rows.last()))
        } else {
            sum_by(keys, rows.drop_last(), key)
        },
    decreases keys.len(),
{
    if keys.len() > 0 {
        let fewer = keys.drop_last();
        let k = key(rows.last());
        sum_by_last(fewer, rows, key);
        if keys.last() == k {
            assert(keys[keys.len() - 1] == k);
            if fewer.contains(k) {
                let i = choose|i: int| 0 <= i < fewer.len() && fewer[i] == k;
                assert(keys[i] == k);
            }
        } else if fewer.contains(k) {
            let i = choose|i: int| 0 <= i < fewer.len() && fewer[i] == k;
            assert(keys[i] == k);
        } else if keys.contains(k) {
            let i = choose|i: int| 0 <= i < keys.len() && keys[i] == k;
            assert(fewer[i] == k);
        }
    }
}

/// Rows added up by a key and then over all keys give the sum of all rows.
pub proof fn sums_by_key_make_the_sum<K>(keys: Seq<K>, rows: Seq<Row>, key: spec_fn(Row) -> K)
    requires
        keys.no_duplicates(),
        forall|i: int| 0 <= i < rows.len() ==> keys.contains(key(#[trigger] rows[i])),
    ensures
        sum_by(keys, rows, key) == sum_all(rows),
    decreases rows.len(),
{
    if rows.len() == 0 {
        sum_by_empty(keys, rows, key);
    } else {
        assert(keys.contains(key(rows[rows.len() - 1])));
        assert forall|i: int| 0 <= i < rows.drop_last().len() implies keys.contains(
            key(#[trigger] rows.drop_last()[i]),
        ) by {
            assert(rows.drop_last()[i] == rows[i]);
        }
        sums_by_key_make_the_sum(keys, rows.drop_last(), key);
        sum_by_last(keys, rows, key);
    }
}

proof fn sum_by_empty<K>(keys: Seq<K>, rows: Seq<Row>, key: spec_fn(Row) -> K)
    requires
        rows.len() == 0,
    ensures
        sum_by(keys, rows, key) == none(),
    decreases keys.len(),
{
    if keys.len() > 0 {
        sum_by_empty(keys.drop_last(), rows, key);
    }
}

/// Adding rows up by spans of time keeps the bytes: the buckets hold as many as the
/// rows.
pub proof fn buckets_keep_the_bytes(
    out: Seq<Row>,
    rows: Seq<Row>,
    zone: jiff::tz::TimeZone,
    unit: Unit,
)
    requires
        is_bucketed(out, rows, zone, unit),
    ensures
        sum_all(out) == sum_all(rows),
{
    let key = |r: Row| start_in(zone, unit, r.ts as int);
    let starts = Seq::new(out.len(), |i: int| out[i].ts as int);
    assert forall|i: int| 0 <= i < rows.len() implies starts.contains(key(#[trigger] rows[i])) by {
        assert(has_start(out, key(rows[i])));
        let w = choose|w: int| 0 <= w < out.len() && (#[trigger] out[w]).ts == key(rows[i]);
        assert(starts[w] == key(rows[i]));
    }
    sums_by_key_make_the_sum(starts, rows, key);
    assert(out.take(out.len() as int) =~= out);
    assert(starts.take(out.len() as int) =~= starts);
    bucket_sums(out, rows, zone, unit, out.len() as int);
}

proof fn bucket_sums(
    out: Seq<Row>,
    rows: Seq<Row>,
    zone: jiff::tz::TimeZone,
    unit: Unit,
    n: int,
)
    requires
        0 <= n <= out.len(),
        is_bucketed(out, rows, zone, unit),
    ensures
        sum_all(out.take(n)) == sum_by(
            Seq::new(out.len(), |i: int| out[i].ts as int).take(n),
            rows,
            |r: Row| start_in(zone, unit, r.ts as int),
        ),
    decreases n,
{
    let key = |r: Row| start_in(zone, unit, r.ts as int);
    let starts = Seq::new(out.len(), |i: int| out[i].ts as int);
    if n > 0 {
        bucket_sums(out, rows, zone, unit, n - 1);
        sum_where_step(out, n - 1, |r: Row| true);
        assert(starts.take(n).drop_last() =~= starts.take(n - 1));
        assert(starts.take(n).last() == out[n - 1].ts);
        sum_where_same(
            rows,
            |r: Row| key(r) == starts.take(n).last(),
            in_span(zone, unit, out[n - 1].ts as int),
        );
    }
}

// ---- buckets are determined ----

/// Whether rows hold the same times and bytes.
pub open spec fn same_rows(a: Seq<Row>, b: Seq<Row>) -> bool {
    a.len() == b.len() && forall|i: int|
        0 <= i < a.len() ==> (#[trigger] a[i]).ts == b[i].ts && bytes_of(a[i]) == bytes_of(b[i])
}

proof fn starts_agree(
    a: Seq<Row>,
    b: Seq<Row>,
    rows: Seq<Row>,
    zone: jiff::tz::TimeZone,
    unit: Unit,
    n: int,
)
    requires
        is_bucketed(a, rows, zone, unit),
        is_bucketed(b, rows, zone, unit),
        0 <= n <= a.len(),
    ensures
        n <= b.len(),
        forall|i: int| 0 <= i < n ==> (#[trigger] a[i]).ts == b[i].ts,
    decreases n,
{
    if n > 0 {
        starts_agree(a, b, rows, zone, unit, n - 1);
        let j = other_place(a, b, rows, zone, unit, n - 1);
        if j < n - 1 {
            assert(a[j].ts == b[j].ts);
        }
        let k = other_place(b, a, rows, zone, unit, n - 1);
        if k < n - 1 {
            assert(a[k].ts == b[k].ts);
        }
        if j > n - 1 {
            assert(b[n - 1].ts < b[j].ts);
        }
        if k > n - 1 {
            assert(a[n - 1].ts < a[k].ts);
        }
    }
}

/// The place at which the other one of two bucketings has the same start.
proof fn other_place(
    a: Seq<Row>,
    b: Seq<Row>,
    rows: Seq<Row>,
    zone: jiff::tz::TimeZone,
    unit: Unit,
    i: int,
) -> (j: int)
    requires
        is_bucketed(a, rows, zone, unit),
        is_bucketed(b, rows, zone, unit),
        0 <= i < a.len(),
    ensures
        0 <= j < b.len(),
        b[j].ts == a[i].ts,
{
    let k = choose|k: int|
        0 <= k < rows.len() && start_in(zone, unit, (#[trigger] rows[k]).ts as int) == a[i].ts;
    assert(has_start(b, start_in(zone, unit, rows[k].ts as int)));
    choose|j: int| 0 <= j < b.len() && (#[trigger] b[j]).ts == a[i].ts
}

/// The rows and the span determine the buckets: any two ways to add the rows up hold the
/// same times and bytes.
pub proof fn buckets_are_determined(
    a: Seq<Row>,
    b: Seq<Row>,
    rows: Seq<Row>,
    zone: jiff::tz::TimeZone,
    unit: Unit,
)
    requires
        is_bucketed(a, rows, zone, unit),
        is_bucketed(b, rows, zone, unit),
    ensures
        same_rows(a, b),
        same_rows(b, a),
{
    starts_agree(a, b, rows, zone, unit, a.len() as int);
    starts_agree(b, a, rows, zone, unit, b.len() as int);
    assert forall|i: int| 0 <= i < a.len() implies (#[trigger] a[i]).ts == b[i].ts && bytes_of(a[i])
        == bytes_of(b[i]) by {
        assert(bytes_of(b[i]) == sum_where(rows, in_span(zone, unit, b[i].ts as int)));
    }
    assert forall|i: int| 0 <= i < b.len() implies (#[trigger] b[i]).ts == a[i].ts && bytes_of(b[i])
        == bytes_of(a[i]) by {
        assert(a[i].ts == b[i].ts);
    }
}

/// Rows with the same times and bytes are added up the same way.
pub proof fn same_rows_same_spans(
    a: Seq<Row>,
    b: Seq<Row>,
    zone: jiff::tz::TimeZone,
    unit: Unit,
)
    requires
        same_rows(a, b),
    ensures
        starts_exist(a, zone, unit) ==> starts_exist(b, zone, unit),
        spans_fit(a, zone, unit) ==> spans_fit(b, zone, unit),
{
    if starts_exist(a, zone, unit) {
        assert forall|i: int| 0 <= i < b.len() implies start_exists(
            zone,
            unit,
            (#[trigger] b[i]).ts as int,
        ) by {
            assert(a[i].ts == b[i].ts);
        }
    }
    if spans_fit(a, zone, unit) {
        assert forall|n: int, start: int| 0 <= n <= b.len() implies all_fit(
            #[trigger] sum_where(b.take(n), in_span(zone, unit, start)),
        ) by {
            assert forall|i: int| 0 <= i < a.take(n).len() implies (#[trigger] a.take(n)[i]).ts
                == b.take(n)[i].ts && bytes_of(a.take(n)[i]) == bytes_of(b.take(n)[i]) by {
                assert(a[i].ts == b[i].ts);
            }
            same_rows_same_sum(a.take(n), b.take(n), zone, unit, start);
            assert(all_fit(sum_where(a.take(n), in_span(zone, unit, start))));
        }
    }
}

proof fn same_rows_same_sum(
    a: Seq<Row>,
    b: Seq<Row>,
    zone: jiff::tz::TimeZone,
    unit: Unit,
    start: int,
)
    requires
        same_rows(a, b),
    ensures
        sum_where(a, in_span(zone, unit, start)) == sum_where(b, in_span(zone, unit, start)),
    decreases a.len(),
{
    if a.len() > 0 {
        let k = a.len() - 1;
        assert(a[k].ts == b[k].ts);
        assert forall|i: int| 0 <= i < a.drop_last().len() implies (#[trigger] a.drop_last()[i]).ts
            == b.drop_last()[i].ts && bytes_of(a.drop_last()[i]) == bytes_of(b.drop_last()[i]) by {
            assert(a[i].ts == b[i].ts);
        }
        same_rows_same_sum(a.drop_last(), b.drop_last(), zone, unit, start);
    }
}

/// Rows with the same times and bytes have the same buckets.
pub proof fn same_rows_same_buckets(
    out: Seq<Row>,
    a: Seq<Row>,
    b: Seq<Row>,
    zone: jiff::tz::TimeZone,
    unit: Unit,
)
    requires
        same_rows(a, b),
        is_bucketed(out, a, zone, unit),
    ensures
        is_bucketed(out, b, zone, unit),
{
    assert forall|i: int| 0 <= i < out.len() implies (#[trigger] out[i]).iface@ == "_all"@
        && bytes_of(out[i]) == sum_where(b, in_span(zone, unit, out[i].ts as int)) by {
        same_rows_same_sum(a, b, zone, unit, out[i].ts as int);
    }
    assert forall|i: int| 0 <= i < b.len() implies has_start(
        out,
        start_in(zone, unit, (#[trigger] b[i]).ts as int),
    ) by {
        assert(a[i].ts == b[i].ts);
    }
    assert forall|i: int| 0 <= i < out.len() implies has_origin(
        b,
        zone,
        unit,
        (#[trigger] out[i]).ts as int,
    ) by {
        let k = choose|k: int|
            0 <= k < a.len() && start_in(zone, unit, (#[trigger] a[k]).ts as int) == out[i].ts;
        assert(a[k].ts == b[k].ts);
    }
}

// ---- buckets of buckets ----

/// Whether the start of the span that `ts` lies in belongs to that span. This does not hold
/// of a start that the clocks of the zone skip.
pub open spec fn starts_in_itself(zone: jiff::tz::TimeZone, unit: Unit, ts: int) -> bool {
    start_in(zone, unit, start_in(zone, unit, ts)) == start_in(zone, unit, ts)
}

/// Whether the start of the smaller span that `ts` lies in belongs to the same larger span
/// as `ts`.
pub open spec fn starts_within(
    zone: jiff::tz::TimeZone,
    small: Unit,
    large: Unit,
    ts: int,
) -> bool {
    start_in(zone, large, start_in(zone, small, ts)) == start_in(zone, large, ts)
}

/// On the clock of UTC every span holds its own start, and the start of a day lies in the
/// same week and month as the day.
pub proof fn utc_spans_hold_their_starts(zone: jiff::tz::TimeZone, unit: Unit, ts: int)
    requires
        is_utc(zone),
    ensures
        starts_in_itself(zone, unit, ts),
        starts_within(zone, Unit::Day, Unit::Week, ts),
        starts_within(zone, Unit::Day, Unit::Month, ts),
{
    start_is_its_own_start(unit, ts);
    spans_nest(ts);
}

proof fn sum_where_one(rows: Seq<Row>, n: int, pick: spec_fn(Row) -> bool)
    requires
        0 <= n < rows.len(),
        forall|i: int| 0 <= i < rows.len() ==> (pick(#[trigger] rows[i]) <==> i == n),
    ensures
        sum_where(rows, pick) == bytes_of(rows[n]),
    decreases rows.len(),
{
    let fewer = rows.drop_last();
    let last = rows.len() - 1;
    assert(pick(rows[last]) <==> last == n);
    assert forall|i: int| 0 <= i < fewer.len() implies (pick(#[trigger] fewer[i]) <==> i == n) by {
        assert(fewer[i] == rows[i]);
    }
    if n == last {
        sum_where_none(fewer, pick);
    } else {
        sum_where_one(fewer, n, pick);
    }
}

/// Adding up by spans what was added up by them before changes nothing.
pub proof fn buckets_of_buckets_are_the_same(
    once: Seq<Row>,
    twice: Seq<Row>,
    rows: Seq<Row>,
    zone: jiff::tz::TimeZone,
    unit: Unit,
)
    requires
        is_bucketed(once, rows, zone, unit),
        is_bucketed(twice, once, zone, unit),
        forall|i: int|
            0 <= i < rows.len() ==> starts_in_itself(zone, unit, (#[trigger] rows[i]).ts as int),
    ensures
        same_rows(once, twice),
{
    assert forall|i: int| 0 <= i < once.len() implies start_in(
        zone,
        unit,
        (#[trigger] once[i]).ts as int,
    ) == once[i].ts by {
        let k = choose|k: int|
            0 <= k < rows.len() && start_in(zone, unit, (#[trigger] rows[k]).ts as int)
                == once[i].ts;
        assert(starts_in_itself(zone, unit, rows[k].ts as int));
    }
    assert forall|i: int| 0 <= i < once.len() implies (#[trigger] once[i]).iface@ == "_all"@
        && bytes_of(once[i]) == sum_where(once, in_span(zone, unit, once[i].ts as int)) by {
        let pick = in_span(zone, unit, once[i].ts as int);
        assert forall|j: int| 0 <= j < once.len() implies (pick(#[trigger] once[j]) <==> j == i) by {
            if j < i {
                assert(once[j].ts < once[i].ts);
            } else if i < j {
                assert(once[i].ts < once[j].ts);
            }
        }
        sum_where_one(once, i, pick);
    }
    assert forall|i: int| 0 <= i < once.len() implies has_start(
        once,
        start_in(zone, unit, (#[trigger] once[i]).ts as int),
    ) by {
        assert(once[i].ts == start_in(zone, unit, once[i].ts as int));
    }
    assert forall|i: int| 0 <= i < once.len() implies has_origin(
        once,
        zone,
        unit,
        (#[trigger] once[i]).ts as int,
    ) by {
        assert(start_in(zone, unit, once[i].ts as int) == once[i].ts);
    }
    assert(is_bucketed(once, once, zone, unit));
    buckets_are_determined(once, twice, once, zone, unit);
}

proof fn sum_where_split(
    rows: Seq<Row>,
    p: spec_fn(Row) -> bool,
    q: spec_fn(Row) -> bool,
    either: spec_fn(Row) -> bool,
)
    requires
        forall|i: int|
            0 <= i < rows.len() ==> either(#[trigger] rows[i]) == (p(rows[i]) || q(rows[i])) && !(p(
                rows[i],
            ) && q(rows[i])),
    ensures
        sum_where(rows, either) == plus(sum_where(rows, p), sum_where(rows, q)),
    decreases rows.len(),
{
    if rows.len() > 0 {
        let fewer = rows.drop_last();
        let last = rows[rows.len() - 1];
        assert(either(last) == (p(last) || q(last)) && !(p(last) && q(last)));
        assert forall|i: int| 0 <= i < fewer.len() implies either(#[trigger] fewer[i]) == (p(
            fewer[i],
        ) || q(fewer[i])) && !(p(fewer[i]) && q(fewer[i])) by {
            assert(fewer[i] == rows[i]);
        }
        sum_where_split(fewer, p, q, either);
    }
}

/// Picks the rows in a large span that lie in one of the first `n` small ones.
spec fn in_both(
    parts: Seq<Row>,
    n: int,
    zone: jiff::tz::TimeZone,
    small: Unit,
    large: Unit,
    start: int,
) -> spec_fn(Row) -> bool {
    |r: Row|
        start_in(zone, large, r.ts as int) == start && has_start(
            parts.take(n),
            start_in(zone, small, r.ts as int),
        )
}

proof fn parts_sum(
    parts: Seq<Row>,
    rows: Seq<Row>,
    zone: jiff::tz::TimeZone,
    small: Unit,
    large: Unit,
    start: int,
    n: int,
)
    requires
        is_bucketed(parts, rows, zone, small),
        forall|i: int|
            0 <= i < rows.len() ==> starts_within(
                zone,
                small,
                large,
                (#[trigger] rows[i]).ts as int,
            ),
        0 <= n <= parts.len(),
    ensures
        sum_where(parts.take(n), in_span(zone, large, start)) == sum_where(
            rows,
            in_both(parts, n, zone, small, large, start),
        ),
    decreases n,
{
    let all = in_both(parts, n, zone, small, large, start);
    if n == 0 {
        sum_where_none(rows, all);
    } else {
        let had = in_both(parts, n - 1, zone, small, large, start);
        let part = parts[n - 1];
        let more = in_span(zone, small, part.ts as int);
        let nothing = |r: Row| false;
        parts_sum(parts, rows, zone, small, large, start, n - 1);
        sum_where_step(parts, n - 1, in_span(zone, large, start));
        let picked = start_in(zone, large, part.ts as int) == start;
        let added = if picked {
            more
        } else {
            nothing
        };
        assert forall|i: int| 0 <= i < rows.len() implies all(#[trigger] rows[i]) == (had(rows[i])
            || added(rows[i])) && !(had(rows[i]) && added(rows[i])) by {
            let s = start_in(zone, small, rows[i].ts as int);
            assert(starts_within(zone, small, large, rows[i].ts as int));
            if s == part.ts {
                assert(parts.take(n)[n - 1].ts == s);
                if has_start(parts.take(n - 1), s) {
                    let w = choose|w: int|
                        0 <= w < parts.take(n - 1).len() && (#[trigger] parts.take(n - 1)[w]).ts
                            == s;
                    assert(parts[w].ts < parts[n - 1].ts);
                }
            } else {
                if has_start(parts.take(n), s) {
                    let w = choose|w: int|
                        0 <= w < parts.take(n).len() && (#[trigger] parts.take(n)[w]).ts == s;
                    assert(parts.take(n - 1)[w].ts == s);
                }
                if has_start(parts.take(n - 1), s) {
                    let w = choose|w: int|
                        0 <= w < parts.take(n - 1).len() && (#[trigger] parts.take(n - 1)[w]).ts
                            == s;
                    assert(parts.take(n)[w].ts == s);
                }
            }
        }
        sum_where_split(rows, had, added, all);
        if !picked {
            sum_where_none(rows, nothing);
        }
    }
}

/// Adding up by large spans what was added up by small ones gives the large spans of the
/// rows themselves, where the small spans lie in the large ones.
pub proof fn buckets_nest(
    parts: Seq<Row>,
    out: Seq<Row>,
    rows: Seq<Row>,
    zone: jiff::tz::TimeZone,
    small: Unit,
    large: Unit,
)
    requires
        is_bucketed(parts, rows, zone, small),
        is_bucketed(out, parts, zone, large),
        forall|i: int|
            0 <= i < rows.len() ==> starts_within(
                zone,
                small,
                large,
                (#[trigger] rows[i]).ts as int,
            ),
    ensures
        is_bucketed(out, rows, zone, large),
{
    let all = parts.len() as int;
    assert(parts.take(all) =~= parts);
    assert forall|i: int| 0 <= i < out.len() implies (#[trigger] out[i]).iface@ == "_all"@
        && bytes_of(out[i]) == sum_where(rows, in_span(zone, large, out[i].ts as int)) by {
        let start = out[i].ts as int;
        parts_sum(parts, rows, zone, small, large, start, all);
        let nothing = |r: Row| false;
        let both = in_both(parts, all, zone, small, large, start);
        let pick = in_span(zone, large, start);
        assert forall|k: int| 0 <= k < rows.len() implies pick(#[trigger] rows[k]) == (both(rows[k])
            || nothing(rows[k])) && !(both(rows[k]) && nothing(rows[k])) by {
            assert(has_start(parts, start_in(zone, small, rows[k].ts as int)));
        }
        sum_where_split(rows, both, nothing, pick);
        sum_where_none(rows, nothing);
    }
    assert forall|i: int| 0 <= i < rows.len() implies has_start(
        out,
        start_in(zone, large, (#[trigger] rows[i]).ts as int),
    ) by {
        let s = start_in(zone, small, rows[i].ts as int);
        assert(has_start(parts, s));
        let w = choose|w: int| 0 <= w < parts.len() && (#[trigger] parts[w]).ts == s;
        assert(has_start(out, start_in(zone, large, parts[w].ts as int)));
        assert(starts_within(zone, small, large, rows[i].ts as int));
    }
    assert forall|i: int| 0 <= i < out.len() implies has_origin(
        rows,
        zone,
        large,
        (#[trigger] out[i]).ts as int,
    ) by {
        let w = choose|w: int|
            0 <= w < parts.len() && start_in(zone, large, (#[trigger] parts[w]).ts as int)
                == out[i].ts;
        let k = choose|k: int|
            0 <= k < rows.len() && start_in(zone, small, (#[trigger] rows[k]).ts as int)
                == parts[w].ts;
        assert(starts_within(zone, small, large, rows[k].ts as int));
    }
}

// ---- rollups ----

/// The rows of one interface.
pub open spec fn of_iface(rows: Seq<Row>, name: Seq<char>) -> Seq<Row>
    decreases rows.len(),
{
    if rows.len() == 0 {
        Seq::empty()
    } else {
        let before = of_iface(rows.drop_last(), name);
        if rows.last().iface@ == name {
            before.push(rows.last())
        } else {
            before
        }
    }
}

proof fn of_iface_members(rows: Seq<Row>, name: Seq<char>)
    ensures
        forall|i: int|
            0 <= i < of_iface(rows, name).len() ==> rows.contains(
                #[trigger] of_iface(rows, name)[i],
            ) && of_iface(rows, name)[i].iface@ == name,
        forall|k: int|
            0 <= k < rows.len() && (#[trigger] rows[k]).iface@ == name ==> of_iface(
                rows,
                name,
            ).contains(rows[k]),
    decreases rows.len(),
{
    if rows.len() > 0 {
        let fewer = rows.drop_last();
        let part = of_iface(rows, name);
        let before = of_iface(fewer, name);
        of_iface_members(fewer, name);
        assert forall|i: int| 0 <= i < part.len() implies rows.contains(#[trigger] part[i])
            && part[i].iface@ == name by {
            if i < before.len() {
                assert(part[i] == before[i]);
                let k = choose|k: int| 0 <= k < fewer.len() && fewer[k] == before[i];
                assert(rows[k] == part[i]);
            } else {
                assert(part[i] == rows[rows.len() - 1]);
            }
        }
        assert forall|k: int| 0 <= k < rows.len() && (#[trigger] rows[k]).iface@
            == name implies part.contains(rows[k]) by {
            if k < fewer.len() {
                assert(fewer[k] == rows[k]);
                let i = choose|i: int| 0 <= i < before.len() && before[i] == fewer[k];
                assert(part[i] == rows[k]);
            } else {
                assert(part[part.len() - 1] == rows[k]);
            }
        }
    }
}

/// Whether some row has this start and this interface.
pub open spec fn has_cell(out: Seq<Row>, start: int, name: Seq<char>) -> bool {
    exists|i: int| 0 <= i < out.len() && (#[trigger] out[i]).ts == start && out[i].iface@ == name
}

/// Whether a row comes from some row of that span and interface.
pub open spec fn has_source(
    cell: Row,
    rows: Seq<Row>,
    zone: jiff::tz::TimeZone,
    unit: Unit,
) -> bool {
    exists|k: int|
        0 <= k < rows.len() && start_in(zone, unit, (#[trigger] rows[k]).ts as int) == cell.ts
            && rows[k].iface@ == cell.iface@
}

/// Whether `out` holds one row for each span and interface that `rows` touch, with the
/// bytes of the rows of that interface in that span.
pub open spec fn is_rolled(
    out: Seq<Row>,
    rows: Seq<Row>,
    zone: jiff::tz::TimeZone,
    unit: Unit,
) -> bool {
    &&& forall|i: int, j: int|
        0 <= i < j < out.len() ==> out[i].ts != out[j].ts || out[i].iface@ != out[j].iface@
    &&& forall|i: int|
        0 <= i < out.len() ==> bytes_of(#[trigger] out[i]) == sum_where(
            of_iface(rows, out[i].iface@),
            in_span(zone, unit, out[i].ts as int),
        )
    &&& forall|k: int|
        0 <= k < rows.len() ==> has_cell(
            out,
            start_in(zone, unit, (#[trigger] rows[k]).ts as int),
            rows[k].iface@,
        )
    &&& forall|i: int| 0 <= i < out.len() ==> has_source(#[trigger] out[i], rows, zone, unit)
}

/// Whether the running sums of every span and interface fit.
pub open spec fn cells_fit(rows: Seq<Row>, zone: jiff::tz::TimeZone, unit: Unit) -> bool {
    forall|name: Seq<char>| spans_fit(#[trigger] of_iface(rows, name), zone, unit)
}

/// The rows of one interface.
fn rows_of(rows: &Vec<Row>, name: &str) -> (r: Vec<Row>)
    ensures
        r@ == of_iface(rows@, name@),
{
    let mut r: Vec<Row> = Vec::new();
    let mut i: usize = 0;
    while i < rows.len()
        invariant
            i <= rows.len(),
            r@ == of_iface(rows@.take(i as int), name@),
        decreases rows.len() - i,
    {
        assert(rows@.take(i + 1).drop_last() =~= rows@.take(i as int));
        let x = &rows[i];
        if same_text(x.iface.as_str(), name) {
            r.push(
                Row {
                    ts: x.ts,
                    iface: x.iface.clone(),
                    rx: x.rx,
                    tx: x.tx,
                    lan_rx: x.lan_rx,
                    lan_tx: x.lan_tx,
                },
            );
        }
        i = i + 1;
    }
    assert(rows@.take(i as int) =~= rows@);
    r
}

/// Whether a name is one of some strings.
pub open spec fn among(name: Seq<char>, names: Seq<String>) -> bool {
    exists|i: int| 0 <= i < names.len() && (#[trigger] names[i])@ == name
}

/// The interfaces of some rows, each of them once.
fn iface_names(rows: &Vec<Row>) -> (names: Vec<String>)
    ensures
        forall|k: int| 0 <= k < rows.len() ==> among((#[trigger] rows@[k]).iface@, names@),
        forall|i: int, j: int| 0 <= i < j < names.len() ==> names@[i]@ != names@[j]@,
{
    let mut names: Vec<String> = Vec::new();
    let mut i: usize = 0;
    while i < rows.len()
        invariant
            i <= rows.len(),
            forall|k: int| 0 <= k < i ==> among((#[trigger] rows@[k]).iface@, names@),
            forall|i: int, j: int| 0 <= i < j < names.len() ==> names@[i]@ != names@[j]@,
        decreases rows.len() - i,
    {
        let name = &rows[i].iface;
        let mut known = false;
        let mut j: usize = names.len();
        while j > 0 && !known
            invariant
                j <= names.len(),
                known ==> among(name@, names@),
                !known ==> forall|k: int| j <= k < names.len() ==> (#[trigger] names@[k])@ != name@,
            decreases j,
        {
            j = j - 1;
            if same_text(names[j].as_str(), name.as_str()) {
                assert(names@[j as int]@ == name@);
                known = true;
            }
        }
        let ghost had = names@;
        if !known {
            names.push(name.clone());
            assert(names@[had.len() as int]@ == name@);
        }
        proof {
            assert forall|k: int| 0 <= k <= i implies among(
                (#[trigger] rows@[k]).iface@,
                names@,
            ) by {
                if k < i {
                    let w = choose|w: int|
                        0 <= w < had.len() && (#[trigger] had[w])@ == rows@[k].iface@;
                    assert(names@[w] == had[w]);
                }
            }
        }
        i = i + 1;
    }
    names
}

/// The same rows under another interface name.
fn renamed(rows: &Vec<Row>, name: &String) -> (r: Vec<Row>)
    ensures
        r.len() == rows.len(),
        forall|i: int|
            0 <= i < r.len() ==> (#[trigger] r@[i]).ts == rows@[i].ts && r@[i].iface@ == name@
                && bytes_of(r@[i]) == bytes_of(rows@[i]),
{
    let mut r: Vec<Row> = Vec::new();
    let mut i: usize = 0;
    while i < rows.len()
        invariant
            i <= rows.len(),
            r.len() == i,
            forall|i: int|
                0 <= i < r.len() ==> (#[trigger] r@[i]).ts == rows@[i].ts && r@[i].iface@ == name@
                    && bytes_of(r@[i]) == bytes_of(rows@[i]),
        decreases rows.len() - i,
    {
        let x = &rows[i];
        r.push(
            Row {
                ts: x.ts,
                iface: name.clone(),
                rx: x.rx,
                tx: x.tx,
                lan_rx: x.lan_rx,
                lan_tx: x.lan_tx,
            },
        );
        i = i + 1;
    }
    r
}

/// Whether `out` rolls up the rows of the interfaces in `names`.
spec fn rolled_for(
    out: Seq<Row>,
    rows: Seq<Row>,
    names: Seq<String>,
    zone: jiff::tz::TimeZone,
    unit: Unit,
) -> bool {
    &&& forall|i: int, j: int|
        0 <= i < j < out.len() ==> out[i].ts != out[j].ts || out[i].iface@ != out[j].iface@
    &&& forall|i: int|
        0 <= i < out.len() ==> bytes_of(#[trigger] out[i]) == sum_where(
            of_iface(rows, out[i].iface@),
            in_span(zone, unit, out[i].ts as int),
        )
    &&& forall|k: int|
        0 <= k < rows.len() && among((#[trigger] rows[k]).iface@, names) ==> has_cell(
            out,
            start_in(zone, unit, rows[k].ts as int),
            rows[k].iface@,
        )
    &&& forall|i: int|
        0 <= i < out.len() ==> has_source(#[trigger] out[i], rows, zone, unit) && among(
            out[i].iface@,
            names,
        )
}

proof fn rolled_step(
    held: Seq<Row>,
    part: Seq<Row>,
    fresh: Seq<Row>,
    rows: Seq<Row>,
    names: Seq<String>,
    n: int,
    zone: jiff::tz::TimeZone,
    unit: Unit,
)
    requires
        0 <= n < names.len(),
        forall|i: int, j: int| 0 <= i < j < names.len() ==> names[i]@ != names[j]@,
        rolled_for(held, rows, names.take(n), zone, unit),
        is_bucketed(part, of_iface(rows, names[n]@), zone, unit),
        fresh.len() == part.len(),
        forall|i: int|
            0 <= i < fresh.len() ==> (#[trigger] fresh[i]).ts == part[i].ts && fresh[i].iface@
                == names[n]@ && bytes_of(fresh[i]) == bytes_of(part[i]),
    ensures
        rolled_for(held + fresh, rows, names.take(n + 1), zone, unit),
{
    let out = held + fresh;
    let name = names[n]@;
    let mine = of_iface(rows, name);
    let upto = names.take(n + 1);
    of_iface_members(rows, name);
    assert(upto[n]@ == name);
    assert forall|i: int| 0 <= i < held.len() implies (#[trigger] held[i]).iface@ != name
        && among(held[i].iface@, upto) by {
        let w = choose|w: int|
            0 <= w < names.take(n).len() && (#[trigger] names.take(n)[w])@ == held[i].iface@;
        assert(names[w]@ != names[n]@);
        assert(upto[w] == names[w]);
    }
    assert forall|i: int, j: int| 0 <= i < j < out.len() implies out[i].ts != out[j].ts
        || out[i].iface@ != out[j].iface@ by {
        if j >= held.len() {
            if i >= held.len() {
                assert(part[i - held.len()].ts < part[j - held.len()].ts);
                assert(fresh[i - held.len()].ts == part[i - held.len()].ts);
                assert(fresh[j - held.len()].ts == part[j - held.len()].ts);
            } else {
                assert(held[i].iface@ != name);
                assert(fresh[j - held.len()].iface@ == name);
            }
        }
    }
    assert forall|i: int| 0 <= i < out.len() implies bytes_of(#[trigger] out[i]) == sum_where(
        of_iface(rows, out[i].iface@),
        in_span(zone, unit, out[i].ts as int),
    ) && has_source(out[i], rows, zone, unit) && among(out[i].iface@, upto) by {
        if i < held.len() {
            assert(out[i] == held[i]);
        } else {
            let q = i - held.len();
            assert(out[i] == fresh[q]);
            assert(bytes_of(part[q]) == sum_where(mine, in_span(zone, unit, part[q].ts as int)));
            let k = choose|k: int|
                0 <= k < mine.len() && start_in(zone, unit, (#[trigger] mine[k]).ts as int)
                    == part[q].ts;
            assert(rows.contains(mine[k]));
            let w = choose|w: int| 0 <= w < rows.len() && rows[w] == mine[k];
            assert(start_in(zone, unit, rows[w].ts as int) == out[i].ts);
        }
    }
    assert forall|k: int| 0 <= k < rows.len() && among(
        (#[trigger] rows[k]).iface@,
        upto,
    ) implies has_cell(out, start_in(zone, unit, rows[k].ts as int), rows[k].iface@) by {
        let s = start_in(zone, unit, rows[k].ts as int);
        if rows[k].iface@ == name {
            assert(mine.contains(rows[k]));
            let m = choose|m: int| 0 <= m < mine.len() && mine[m] == rows[k];
            assert(has_start(part, start_in(zone, unit, mine[m].ts as int)));
            let q = choose|q: int| 0 <= q < part.len() && (#[trigger] part[q]).ts == s;
            assert(out[held.len() + q] == fresh[q]);
            assert(fresh[q].ts == part[q].ts);
        } else {
            let w = choose|w: int| 0 <= w < upto.len() && (#[trigger] upto[w])@ == rows[k].iface@;
            assert(w < n);
            assert(names.take(n)[w] == upto[w]);
            assert(has_cell(held, s, rows[k].iface@));
            let q = choose|q: int|
                0 <= q < held.len() && (#[trigger] held[q]).ts == s && held[q].iface@
                    == rows[k].iface@;
            assert(out[q] == held[q]);
        }
    }
}

/// The rows added up by spans of civil time and interfaces; nothing where a span has no
/// start or a sum does not fit.
pub fn roll(rows: &Vec<Row>, unit: Unit, zone: &jiff::tz::TimeZone) -> (r: Option<Vec<Row>>)
    ensures
        r is Some <==> starts_exist(rows@, *zone, unit) && cells_fit(rows@, *zone, unit),
        r matches Some(out) ==> is_rolled(out@, rows@, *zone, unit),
{
    let names = iface_names(rows);
    let mut out: Vec<Row> = Vec::new();
    let mut i: usize = 0;
    while i < names.len()
        invariant
            i <= names.len(),
            forall|k: int| 0 <= k < rows.len() ==> among((#[trigger] rows@[k]).iface@, names@),
            forall|i: int, j: int| 0 <= i < j < names.len() ==> names@[i]@ != names@[j]@,
            rolled_for(out@, rows@, names@.take(i as int), *zone, unit),
            forall|k: int|
                0 <= k < i ==> starts_exist(of_iface(rows@, (#[trigger] names@[k])@), *zone, unit)
                    && spans_fit(of_iface(rows@, names@[k]@), *zone, unit),
        decreases names.len() - i,
    {
        let mine = rows_of(rows, names[i].as_str());
        let part = match bucket(&mine, unit, zone) {
            Some(b) => b,
            None => {
                proof {
                    of_iface_members(rows@, names@[i as int]@);
                    if starts_exist(rows@, *zone, unit) {
                        assert forall|k: int| 0 <= k < mine@.len() implies start_exists(
                            *zone,
                            unit,
                            (#[trigger] mine@[k]).ts as int,
                        ) by {
                            assert(rows@.contains(mine@[k]));
                            let w = choose|w: int| 0 <= w < rows@.len() && rows@[w] == mine@[k];
                            assert(start_exists(*zone, unit, rows@[w].ts as int));
                        }
                        assert(!spans_fit(of_iface(rows@, names@[i as int]@), *zone, unit));
                    }
                }
                return None;
            },
        };
        let mut fresh = renamed(&part, &names[i]);
        proof {
            rolled_step(out@, part@, fresh@, rows@, names@, i as int, *zone, unit);
        }
        out.append(&mut fresh);
        i = i + 1;
    }
    proof {
        assert(names@.take(i as int) =~= names@);
        assert forall|k: int| 0 <= k < rows@.len() implies start_exists(
            *zone,
            unit,
            (#[trigger] rows@[k]).ts as int,
        ) by {
            let w = choose|w: int|
                0 <= w < names@.len() && (#[trigger] names@[w])@ == rows@[k].iface@;
            let mine = of_iface(rows@, names@[w]@);
            of_iface_members(rows@, names@[w]@);
            assert(mine.contains(rows@[k]));
            let m = choose|m: int| 0 <= m < mine.len() && mine[m] == rows@[k];
            assert(start_exists(*zone, unit, mine[m].ts as int));
        }
        assert forall|name: Seq<char>| spans_fit(
            #[trigger] of_iface(rows@, name),
            *zone,
            unit,
        ) by {
            if among(name, names@) {
                let w = choose|w: int| 0 <= w < names@.len() && (#[trigger] names@[w])@ == name;
                assert(of_iface(rows@, names@[w]@) == of_iface(rows@, name));
            } else {
                let mine = of_iface(rows@, name);
                of_iface_members(rows@, name);
                if mine.len() > 0 {
                    assert(rows@.contains(mine[0]));
                    let k = choose|k: int| 0 <= k < rows@.len() && rows@[k] == mine[0];
                    assert(among(rows@[k].iface@, names@));
                }
                assert forall|n: int, start: int| 0 <= n <= mine.len() implies all_fit(
                    #[trigger] sum_where(mine.take(n), in_span(*zone, unit, start)),
                ) by {
                    assert(mine.take(n).len() == 0);
                }
            }
        }
    }
    Some(out)
}

spec fn on_iface(pick: spec_fn(Row) -> bool, name: Seq<char>) -> spec_fn(Row) -> bool {
    |r: Row| pick(r) && r.iface@ == name
}

proof fn of_iface_sum(rows: Seq<Row>, name: Seq<char>, pick: spec_fn(Row) -> bool)
    ensures
        sum_where(of_iface(rows, name), pick) == sum_where(rows, on_iface(pick, name)),
    decreases rows.len(),
{
    if rows.len() > 0 {
        of_iface_sum(rows.drop_last(), name, pick);
        if rows.last().iface@ == name {
            let before = of_iface(rows.drop_last(), name);
            assert(before.push(rows.last()).drop_last() =~= before);
        }
    }
}

spec fn cell_of(zone: jiff::tz::TimeZone, unit: Unit) -> spec_fn(Row) -> (int, Seq<char>) {
    |r: Row| (start_in(zone, unit, r.ts as int), r.iface@)
}

spec fn cells_of(out: Seq<Row>) -> Seq<(int, Seq<char>)> {
    Seq::new(out.len(), |i: int| (out[i].ts as int, out[i].iface@))
}

/// Rolling rows up by spans of time and interfaces keeps the bytes.
pub proof fn rollups_keep_the_bytes(
    out: Seq<Row>,
    rows: Seq<Row>,
    zone: jiff::tz::TimeZone,
    unit: Unit,
)
    requires
        is_rolled(out, rows, zone, unit),
    ensures
        sum_all(out) == sum_all(rows),
{
    let key = cell_of(zone, unit);
    let cells = cells_of(out);
    assert forall|k: int| 0 <= k < rows.len() implies cells.contains(key(#[trigger] rows[k])) by {
        let s = start_in(zone, unit, rows[k].ts as int);
        assert(has_cell(out, s, rows[k].iface@));
        let w = choose|w: int|
            0 <= w < out.len() && (#[trigger] out[w]).ts == s && out[w].iface@ == rows[k].iface@;
        assert(cells[w] == key(rows[k]));
    }
    assert(cells.no_duplicates()) by {
        assert forall|i: int, j: int| 0 <= i < cells.len() && 0 <= j < cells.len() && i
            != j implies cells[i] != cells[j] by {
            if i < j {
                assert(out[i].ts != out[j].ts || out[i].iface@ != out[j].iface@);
            } else {
                assert(out[j].ts != out[i].ts || out[j].iface@ != out[i].iface@);
            }
        }
    }
    sums_by_key_make_the_sum(cells, rows, key);
    assert(out.take(out.len() as int) =~= out);
    assert(cells.take(out.len() as int) =~= cells);
    cell_sums(out, rows, zone, unit, out.len() as int);
}

proof fn cell_sums(
    out: Seq<Row>,
    rows: Seq<Row>,
    zone: jiff::tz::TimeZone,
    unit: Unit,
    n: int,
)
    requires
        0 <= n <= out.len(),
        is_rolled(out, rows, zone, unit),
    ensures
        sum_all(out.take(n)) == sum_by(
            cells_of(out).take(n),
            rows,
            cell_of(zone, unit),
        ),
    decreases n,
{
    let key = cell_of(zone, unit);
    let cells = cells_of(out);
    if n > 0 {
        cell_sums(out, rows, zone, unit, n - 1);
        sum_where_step(out, n - 1, |r: Row| true);
        assert(cells.take(n).drop_last() =~= cells.take(n - 1));
        let last = out[n - 1];
        assert(cells.take(n).last() == (last.ts as int, last.iface@));
        let pick = in_span(zone, unit, last.ts as int);
        of_iface_sum(rows, last.iface@, pick);
        sum_where_same(
            rows,
            |r: Row| key(r) == cells.take(n).last(),
            on_iface(pick, last.iface@),
        );
    }
}

/// The rows and the span determine a rollup: any other rollup of the same rows has each of
/// its rows, with the same bytes.
pub proof fn rollups_are_determined(
    a: Seq<Row>,
    b: Seq<Row>,
    rows: Seq<Row>,
    zone: jiff::tz::TimeZone,
    unit: Unit,
    i: int,
)
    requires
        is_rolled(a, rows, zone, unit),
        is_rolled(b, rows, zone, unit),
        0 <= i < a.len(),
    ensures
        exists|j: int|
            0 <= j < b.len() && (#[trigger] b[j]).ts == a[i].ts && b[j].iface@ == a[i].iface@
                && bytes_of(b[j]) == bytes_of(a[i]),
{
    assert(has_source(a[i], rows, zone, unit));
    let k = choose|k: int|
        0 <= k < rows.len() && start_in(zone, unit, (#[trigger] rows[k]).ts as int) == a[i].ts
            && rows[k].iface@ == a[i].iface@;
    assert(has_cell(b, start_in(zone, unit, rows[k].ts as int), rows[k].iface@));
    let j = choose|j: int|
        0 <= j < b.len() && (#[trigger] b[j]).ts == a[i].ts && b[j].iface@ == a[i].iface@;
    assert(bytes_of(b[j]) == bytes_of(a[i]));
}

/// The rollups of the raw samples.
pub struct Rollup {
    pub hourly: Vec<Row>,
    pub daily: Vec<Row>,
    pub monthly: Vec<Row>,
}

/// Whether all three rollups of some samples exist: every span has a start and no sum is
/// too large.
pub open spec fn can_roll(samples: Seq<Row>, zone: jiff::tz::TimeZone) -> bool {
    &&& starts_exist(samples, zone, Unit::Hour) && cells_fit(samples, zone, Unit::Hour)
    &&& starts_exist(samples, zone, Unit::Day) && cells_fit(samples, zone, Unit::Day)
    &&& starts_exist(samples, zone, Unit::Month) && cells_fit(samples, zone, Unit::Month)
}

/// Whether these are the hourly, daily and monthly rollups of some samples.
pub open spec fn is_rollup(r: Rollup, samples: Seq<Row>, zone: jiff::tz::TimeZone) -> bool {
    &&& is_rolled(r.hourly@, samples, zone, Unit::Hour)
    &&& is_rolled(r.daily@, samples, zone, Unit::Day)
    &&& is_rolled(r.monthly@, samples, zone, Unit::Month)
}

/// The hours, the days and the months hold the same bytes: those of the samples.
pub proof fn all_rollups_hold_the_same_bytes(
    r: Rollup,
    samples: Seq<Row>,
    zone: jiff::tz::TimeZone,
)
    requires
        is_rollup(r, samples, zone),
    ensures
        sum_all(r.hourly@) == sum_all(samples),
        sum_all(r.daily@) == sum_all(samples),
        sum_all(r.monthly@) == sum_all(samples),
{
    rollups_keep_the_bytes(r.hourly@, samples, zone, Unit::Hour);
    rollups_keep_the_bytes(r.daily@, samples, zone, Unit::Day);
    rollups_keep_the_bytes(r.monthly@, samples, zone, Unit::Month);
}

/// Rolls raw samples up by the hour, the day and the month of a zone.
pub fn rollup_in(samples: &Vec<Row>, zone: &jiff::tz::TimeZone) -> (r: Option<Rollup>)
    ensures
        r is Some <==> can_roll(samples@, *zone),
        r matches Some(x) ==> is_rollup(x, samples@, *zone),
{
    let hourly = match roll(samples, Unit::Hour, zone) {
        Some(v) => v,
        None => return None,
    };
    let daily = match roll(samples, Unit::Day, zone) {
        Some(v) => v,
        None => return None,
    };
    let monthly = match roll(samples, Unit::Month, zone) {
        Some(v) => v,
        None => return None,
    };
    Some(Rollup { hourly, daily, monthly })
}

/// Rolls raw samples up by the hour, the day and the month of the machine's clock or of
/// UTC.
pub fn rollup(samples: &Vec<Row>, tz_local: bool) -> (r: Option<Rollup>)
    ensures
        exists|zone: jiff::tz::TimeZone|
            {
                &&& !tz_local ==> is_utc(zone)
                &&& r is Some <==> #[trigger] can_roll(samples@, zone)
                &&& r matches Some(x) ==> is_rollup(x, samples@, zone)
            },
{
    let zone = time_zone(tz_local);
    rollup_in(samples, &zone)
}

// ---- windows ----

/// The start of the hour that `ts` lies in.
pub fn floor_hour(ts: i64, local: bool) -> (r: i64)
    requires
        floor_exists(Unit::Hour, ts as int, local),
    ensures
        is_floor(Unit::Hour, ts as int, local, r as int),
{
    floor(Unit::Hour, ts, local)
}

/// The start of the day that `ts` lies in.
pub fn floor_day(ts: i64, local: bool) -> (r: i64)
    requires
        floor_exists(Unit::Day, ts as int, local),
    ensures
        is_floor(Unit::Day, ts as int, local, r as int),
{
    floor(Unit::Day, ts, local)
}

/// Monday 00:00 of the week that `ts` lies in.
pub fn floor_week(ts: i64, local: bool) -> (r: i64)
    requires
        floor_exists(Unit::Week, ts as int, local),
    ensures
        is_floor(Unit::Week, ts as int, local, r as int),
{
    floor(Unit::Week, ts, local)
}

/// The start of the month that `ts` lies in.
pub fn floor_month(ts: i64, local: bool) -> (r: i64)
    requires
        floor_exists(Unit::Month, ts as int, local),
    ensures
        is_floor(Unit::Month, ts as int, local, r as int),
{
    floor(Unit::Month, ts, local)
}

/// A window of usage that ends now.
#[derive(Clone, Copy, PartialEq, Eq, Structural, Debug)]
pub enum Window {
    Day,
    Week,
    Month,
}

/// The span of a window.
pub open spec fn window_unit(window: Window) -> Unit {
    match window {
        Window::Day => Unit::Day,
        Window::Week => Unit::Week,
        Window::Month => Unit::Month,
    }
}

/// The start of the window that `ts` lies in.
pub fn window_floor(window: Window, ts: i64, local: bool) -> (r: i64)
    requires
        floor_exists(window_unit(window), ts as int, local),
    ensures
        is_floor(window_unit(window), ts as int, local, r as int),
{
    match window {
        Window::Day => floor_day(ts, local),
        Window::Week => floor_week(ts, local),
        Window::Month => floor_month(ts, local),
    }
}

/// The window of a budget period: "day", "week", and the month for any other word.
pub open spec fn period_window(period: Seq<char>) -> Window {
    if period == "day"@ {
        Window::Day
    } else if period == "week"@ {
        Window::Week
    } else {
        Window::Month
    }
}

/// The window of a budget period.
pub fn window_of(period: &str) -> (r: Window)
    ensures
        r == period_window(period@),
{
    if same_text(period, "day") {
        Window::Day
    } else if same_text(period, "week") {
        Window::Week
    } else {
        Window::Month
    }
}

/// The start of the window of a budget period.
pub fn budget_window_start(ts: i64, local: bool, period: &str) -> (r: i64)
    requires
        floor_exists(window_unit(period_window(period@)), ts as int, local),
    ensures
        is_floor(window_unit(period_window(period@)), ts as int, local, r as int),
{
    window_floor(window_of(period), ts, local)
}

/// day → daily, week → weekly, month → monthly.
pub open spec fn adverb(period: Seq<char>) -> Seq<char> {
    match period_window(period) {
        Window::Day => "daily"@,
        Window::Week => "weekly"@,
        Window::Month => "monthly"@,
    }
}

/// day → daily, week → weekly, month → monthly.
pub fn period_adverb(period: &str) -> (r: &'static str)
    ensures
        r@ == adverb(period@),
{
    match window_of(period) {
        Window::Day => "daily",
        Window::Week => "weekly",
        Window::Month => "monthly",
    }
}

/// The month of an instant in a zone, as `YYYY-MM`.
pub fn month_key_in(ts: i64, zone: &jiff::tz::TimeZone) -> (r: String)
    requires
        FIRST_INSTANT <= ts <= LAST_INSTANT,
    ensures
        r@ == month_text(clock(*zone, ts as int) / 86400),
{
    let mut r = String::new();
    push_month(&mut r, ts, zone);
    assert(r@ =~= month_text(clock(*zone, ts as int) / 86400));
    r
}

/// The month of an instant, as `YYYY-MM`.
pub fn month_key(ts: i64, local: bool) -> (r: String)
    requires
        FIRST_INSTANT <= ts <= LAST_INSTANT,
    ensures
        exists|zone: jiff::tz::TimeZone|
            (!local ==> is_utc(zone)) && r@ == month_text(#[trigger] clock(zone, ts as int) / 86400),
{
    let zone = time_zone(local);
    month_key_in(ts, &zone)
}

/// The key of the budget window that starts at an instant: the period and the date.
pub open spec fn key_text(period: Seq<char>, zone: jiff::tz::TimeZone, start: int) -> Seq<char> {
    period + ":"@ + date_text(clock(zone, start) / 86400)
}

/// The start of the window of a budget period in a zone.
pub open spec fn window_start(period: Seq<char>, zone: jiff::tz::TimeZone, ts: int) -> int {
    start_in(zone, window_unit(period_window(period)), ts)
}

/// The span of a window.
fn unit_of(window: Window) -> (r: Unit)
    ensures
        r == window_unit(window),
{
    match window {
        Window::Day => Unit::Day,
        Window::Week => Unit::Week,
        Window::Month => Unit::Month,
    }
}

/// The key of the budget window that `ts` lies in ("day:2026-09-06", "week:2026-08-31");
/// nothing where that window has no start.
pub fn budget_key_in(ts: i64, zone: &jiff::tz::TimeZone, period: &str) -> (r: Option<String>)
    ensures
        r is Some <==> start_exists(*zone, window_unit(period_window(period@)), ts as int),
        r matches Some(k) ==> k@ == key_text(
            period@,
            *zone,
            window_start(period@, *zone, ts as int),
        ),
{
    match start_of(unit_of(window_of(period)), ts, zone) {
        Some(start) => {
            let mut r = String::new();
            r.append(period);
            r.append(":");
            push_date(&mut r, start, zone);
            assert(r@ =~= key_text(period@, *zone, window_start(period@, *zone, ts as int)));
            Some(r)
        },
        None => None,
    }
}

/// The key of the budget window that `ts` lies in ("day:2026-09-06", "week:2026-08-31").
pub fn budget_key(ts: i64, local: bool, period: &str) -> (r: String)
    requires
        floor_exists(window_unit(period_window(period@)), ts as int, local),
    ensures
        exists|zone: jiff::tz::TimeZone|
            (!local ==> is_utc(zone)) && r@ == key_text(
                period@,
                zone,
                #[trigger] window_start(period@, zone, ts as int),
            ),
{
    let zone = time_zone(local);
    proof {
        unit_start_is_near(window_unit(period_window(period@)), ts as int);
    }
    let window = unit_of(window_of(period));
    let start = match start_of(window, ts, &zone) {
        Some(t) => t,
        None => ts,
    };
    let mut r = String::new();
    r.append(period);
    r.append(":");
    push_date(&mut r, start, &zone);
    assert(r@ =~= key_text(period@, zone, window_start(period@, zone, ts as int)));
    r
}

/// Whether the window of a budget period that `ts` lies in starts, on the clocks of a zone,
/// on its first day. This does not hold of a first day that the clocks skip.
pub open spec fn starts_on_its_day(period: Seq<char>, zone: jiff::tz::TimeZone, ts: int) -> bool {
    clock(zone, window_start(period, zone, ts)) / 86400 == first_day(period, zone, ts)
}

/// The first day of the window of a budget period that `ts` lies in.
pub open spec fn first_day(period: Seq<char>, zone: jiff::tz::TimeZone, ts: int) -> int {
    unit_start(window_unit(period_window(period)), clock(zone, ts)) / 86400
}

/// On the clock of UTC every window starts on its first day.
pub proof fn utc_windows_start_on_their_day(period: Seq<char>, zone: jiff::tz::TimeZone, ts: int)
    requires
        is_utc(zone),
    ensures
        starts_on_its_day(period, zone, ts),
{
}

/// Two instants whose windows start on their first days, in the years 0 to 9999, have the
/// same budget key if and only if they lie in the same window.
pub proof fn keys_tell_windows_apart(
    period: Seq<char>,
    zone: jiff::tz::TimeZone,
    a: int,
    b: int,
)
    requires
        starts_on_its_day(period, zone, a),
        starts_on_its_day(period, zone, b),
        0 <= date_of(first_day(period, zone, a)).0 <= 9999,
        0 <= date_of(first_day(period, zone, b)).0 <= 9999,
    ensures
        key_text(period, zone, window_start(period, zone, a)) == key_text(
            period,
            zone,
            window_start(period, zone, b),
        ) <==> window_start(period, zone, a) == window_start(period, zone, b),
{
    let (s, t) = (window_start(period, zone, a), window_start(period, zone, b));
    let (k, l) = (key_text(period, zone, s), key_text(period, zone, t));
    let head = period + ":"@;
    if k == l {
        let (m, n) = (first_day(period, zone, a), first_day(period, zone, b));
        assert(k.skip(head.len() as int) =~= date_text(m));
        assert(l.skip(head.len() as int) =~= date_text(n));
        date_text_tells_days_apart(m, n);
        let unit = window_unit(period_window(period));
        starts_at_midnight(unit, clock(zone, a));
        starts_at_midnight(unit, clock(zone, b));
    }
}

/// The keys of different periods differ, whatever windows they are of.
pub proof fn keys_tell_periods_apart(
    p: Seq<char>,
    q: Seq<char>,
    zone: jiff::tz::TimeZone,
    s: int,
    t: int,
)
    requires
        p != q,
        forall|i: int| 0 <= i < p.len() ==> p[i] != ':',
        forall|i: int| 0 <= i < q.len() ==> q[i] != ':',
    ensures
        key_text(p, zone, s) != key_text(q, zone, t),
{
    reveal_strlit(":");
    let (k, l) = (key_text(p, zone, s), key_text(q, zone, t));
    if k == l {
        assert(k[p.len() as int] == ':' && l[q.len() as int] == ':');
        if p.len() < q.len() {
            assert(l[p.len() as int] == q[p.len() as int]);
        } else if q.len() < p.len() {
            assert(k[q.len() as int] == p[q.len() as int]);
        } else {
            assert(p =~= k.take(p.len() as int));
            assert(q =~= l.take(q.len() as int));
        }
    }
}

// ---- queries ----

/// The column that holds the time of a table's rows.
pub open spec fn time_column(table: Seq<char>) -> Seq<char> {
    if table == "hourly"@ {
        "ts_hour"@
    } else if table == "daily"@ {
        "ts_day"@
    } else if table == "monthly"@ {
        "ts_mon"@
    } else {
        "ts"@
    }
}

/// The query for the rows of a table from one time up to another: those of one
/// interface, or those of all interfaces added up.
pub open spec fn range_query(table: Seq<char>, one_iface: bool) -> Seq<char> {
    let col = time_column(table);
    if table == "samples"@ {
        if one_iface {
            "SELECT ts, iface, rx_total, tx_total, lan_rx, lan_tx FROM samples WHERE ts>=?1 AND ts<?2 AND iface=?3 ORDER BY ts"@
        } else {
            "SELECT ts, '_all', SUM(rx_total), SUM(tx_total), SUM(lan_rx), SUM(lan_tx) FROM samples WHERE ts>=?1 AND ts<?2 GROUP BY ts ORDER BY ts"@
        }
    } else if one_iface {
        "SELECT "@ + col + ", iface, rx, tx, lan_rx, lan_tx FROM "@ + table + " WHERE "@ + col
            + ">=?1 AND "@ + col + "<?2 AND iface=?3 ORDER BY "@ + col
    } else {
        "SELECT "@ + col + ", '_all', SUM(rx), SUM(tx), SUM(lan_rx), SUM(lan_tx) FROM "@ + table
            + " WHERE "@ + col + ">=?1 AND "@ + col + "<?2 GROUP BY "@ + col + " ORDER BY "@ + col
    }
}

/// The query for the rows of a table from one time up to another.
pub fn query_range(table: &str, one_iface: bool) -> (r: String)
    ensures
        r@ == range_query(table@, one_iface),
{
    let col = if same_text(table, "hourly") {
        "ts_hour"
    } else if same_text(table, "daily") {
        "ts_day"
    } else if same_text(table, "monthly") {
        "ts_mon"
    } else {
        "ts"
    };
    let mut r = String::new();
    if same_text(table, "samples") {
        if one_iface {
            r.append(
                "SELECT ts, iface, rx_total, tx_total, lan_rx, lan_tx FROM samples WHERE ts>=?1 AND ts<?2 AND iface=?3 ORDER BY ts",
            );
        } else {
            r.append(
                "SELECT ts, '_all', SUM(rx_total), SUM(tx_total), SUM(lan_rx), SUM(lan_tx) FROM samples WHERE ts>=?1 AND ts<?2 GROUP BY ts ORDER BY ts",
            );
        }
    } else {
        r.append("SELECT ");
        r.append(col);
        if one_iface {
            r.append(", iface, rx, tx, lan_rx, lan_tx FROM ");
        } else {
            r.append(", '_all', SUM(rx), SUM(tx), SUM(lan_rx), SUM(lan_tx) FROM ");
        }
        r.append(table);
        r.append(" WHERE ");
        r.append(col);
        r.append(">=?1 AND ");
        r.append(col);
        if one_iface {
            r.append("<?2 AND iface=?3 ORDER BY ");
        } else {
            r.append("<?2 GROUP BY ");
            r.append(col);
            r.append(" ORDER BY ");
        }
        r.append(col);
    }
    assert(r@ =~= range_query(table@, one_iface));
    r
}

// ---- what sums are made of ----

/// What is left of the bytes and the share that was taken off make all of them; a share
/// as large as all leaves none, and nothing is ever less than none.
pub proof fn the_rest_and_the_share_are_all(all: int, part: int)
    ensures
        part <= all ==> rest(all, part) + part == all,
        part >= all ==> rest(all, part) == 0,
        rest(all, part) >= 0,
{
}

/// One row counts for what it holds, each of its four counts for itself.
pub proof fn one_row_counts_for_itself(r: Row, pick: spec_fn(Row) -> bool)
    ensures
        ({
            let sum = sum_where(seq![r], pick);
            &&& pick(r) ==> sum.rx == r.rx && sum.tx == r.tx && sum.lan_rx == r.lan_rx
                && sum.lan_tx == r.lan_tx
            &&& !pick(r) ==> sum.rx == 0 && sum.tx == 0 && sum.lan_rx == 0 && sum.lan_tx == 0
        }),
{
    assert(seq![r].drop_last() =~= Seq::empty());
    assert(sum_where(Seq::empty(), pick) == none());
}

/// The bytes of rows and of more rows are those of all of them.
pub proof fn sums_add_up(a: Seq<Row>, b: Seq<Row>, pick: spec_fn(Row) -> bool)
    ensures
        ({
            let (s, t, all) = (sum_where(a, pick), sum_where(b, pick), sum_where(a + b, pick));
            &&& all.rx == s.rx + t.rx
            &&& all.tx == s.tx + t.tx
            &&& all.lan_rx == s.lan_rx + t.lan_rx
            &&& all.lan_tx == s.lan_tx + t.lan_tx
        }),
    decreases b.len(),
{
    if b.len() == 0 {
        assert(a + b =~= a);
    } else {
        sums_add_up(a, b.drop_last(), pick);
        assert((a + b).drop_last() =~= a + b.drop_last());
        assert((a + b).last() == b.last());
    }
}

/// The rows of an interface are just those that name it, as they stand.
pub proof fn rows_of_an_interface_are_kept(rows: Seq<Row>, name: Seq<char>)
    ensures
        of_iface(rows, name) == rows.filter(|r: Row| r.iface@ == name),
    decreases rows.len(),
{
    reveal(Seq::filter);
    if rows.len() > 0 {
        rows_of_an_interface_are_kept(rows.drop_last(), name);
    }
}

/// Picks the rows of the same interface and span as a row.
pub open spec fn shares_cell(
    zone: jiff::tz::TimeZone,
    unit: Unit,
    like: Row,
) -> spec_fn(Row) -> bool {
    |r: Row|
        r.iface@ == like.iface@ && start_in(zone, unit, r.ts as int) == start_in(
            zone,
            unit,
            like.ts as int,
        )
}

/// In a rollup every row has its cell: one of its interface that starts where its span
/// starts, and that holds the bytes of just the rows of that interface and span.
pub proof fn every_row_is_in_its_cell(
    out: Seq<Row>,
    rows: Seq<Row>,
    zone: jiff::tz::TimeZone,
    unit: Unit,
    k: int,
)
    requires
        is_rolled(out, rows, zone, unit),
        0 <= k < rows.len(),
    ensures
        exists|i: int|
            {
                let sum = sum_where(rows, shares_cell(zone, unit, rows[k]));
                &&& 0 <= i < out.len()
                &&& (#[trigger] out[i]).ts == start_in(zone, unit, rows[k].ts as int)
                &&& out[i].iface@ == rows[k].iface@
                &&& out[i].rx == sum.rx && out[i].tx == sum.tx
                &&& out[i].lan_rx == sum.lan_rx && out[i].lan_tx == sum.lan_tx
            },
{
    let start = start_in(zone, unit, rows[k].ts as int);
    let name = rows[k].iface@;
    assert(has_cell(out, start, name));
    let i = choose|i: int|
        0 <= i < out.len() && (#[trigger] out[i]).ts == start && out[i].iface@ == name;
    assert(bytes_of(out[i]) == sum_where(of_iface(rows, name), in_span(zone, unit, start)));
    of_iface_sum(rows, name, in_span(zone, unit, start));
    sum_where_same(
        rows,
        on_iface(in_span(zone, unit, start), name),
        shares_cell(zone, unit, rows[k]),
    );
}

/// Every row is in the bucket of its span, which holds the bytes of just the rows of that
/// span.
pub proof fn every_row_is_in_its_bucket(
    out: Seq<Row>,
    rows: Seq<Row>,
    zone: jiff::tz::TimeZone,
    unit: Unit,
    k: int,
)
    requires
        is_bucketed(out, rows, zone, unit),
        0 <= k < rows.len(),
    ensures
        exists|i: int|
            {
                let sum = sum_where(
                    rows,
                    |r: Row|
                        start_in(zone, unit, r.ts as int) == start_in(
                            zone,
                            unit,
                            rows[k].ts as int,
                        ),
                );
                &&& 0 <= i < out.len()
                &&& (#[trigger] out[i]).ts == start_in(zone, unit, rows[k].ts as int)
                &&& out[i].rx == sum.rx && out[i].tx == sum.tx
                &&& out[i].lan_rx == sum.lan_rx && out[i].lan_tx == sum.lan_tx
            },
{
    let start = start_in(zone, unit, rows[k].ts as int);
    assert(has_start(out, start));
    let i = choose|i: int| 0 <= i < out.len() && (#[trigger] out[i]).ts == start;
    assert(bytes_of(out[i]) == sum_where(rows, in_span(zone, unit, start)));
    sum_where_same(
        rows,
        in_span(zone, unit, start),
        |r: Row| start_in(zone, unit, r.ts as int) == start,
    );
}

/// The window of a budget is the day for days and starts on a Monday for weeks; for months,
/// as for any other word, it starts on the first of a month. No window starts after the
/// time it is asked for, on the clock of UTC.
#[verifier::spinoff_prover]
pub proof fn windows_hold_their_time(period: Seq<char>, zone: jiff::tz::TimeZone, ts: int)
    requires
        is_utc(zone),
    ensures
        ({
            let start = window_start(period, zone, ts);
            &&& start <= ts
            &&& start % 86400 == 0
            &&& period == "day"@ ==> ts - start < 86400
            &&& period == "week"@ ==> ts - start < 7 * 86400 && (start / 86400 - 4) % 7 == 0
            &&& period != "day"@ && period != "week"@ ==> date_of(start / 86400).2 == 1
                && date_of(start / 86400).0 == date_of(ts / 86400).0 && date_of(start / 86400).1
                == date_of(ts / 86400).1
        }),
{
    reveal_strlit("day");
    reveal_strlit("week");
    let unit = window_unit(period_window(period));
    assert("day"@.len() == 3 && "week"@.len() == 4);
    let start = unit_start(unit, ts);
    assert(window_start(period, zone, ts) == start);
    spans_have_their_length(ts);
    unit_start_is_near(unit, ts);
    starts_at_midnight(unit, ts);
    assert(start % 86400 == 0) by {
        lemma_fundamental_div_mod_converse(start, 86400, start / 86400, 0);
    }
    weeks_start_on_monday(ts);
    assert(day_number(1970, 1, 5) == 4);
    if unit == Unit::Month {
        let day = ts / 86400;
        every_day_has_a_date(day);
        let d = date_of(day);
        date_of_day_number(d.0, d.1, 1);
        lemma_fundamental_div_mod_converse(start, 86400, first_of_month(day), 0);
    }
}

// ---- ordinary rows always add up ----

/// Whether no count of some rows is negative.
pub open spec fn none_negative(rows: Seq<Row>) -> bool {
    forall|i: int|
        0 <= i < rows.len() ==> 0 <= (#[trigger] rows[i]).rx && 0 <= rows[i].tx && 0
            <= rows[i].lan_rx && 0 <= rows[i].lan_tx
}

proof fn sums_of_fewer(rows: Seq<Row>, n: int, pick: spec_fn(Row) -> bool)
    requires
        none_negative(rows),
        0 <= n <= rows.len(),
    ensures
        ({
            let (part, all) = (sum_where(rows.take(n), pick), sum_all(rows));
            &&& 0 <= part.rx <= all.rx && 0 <= part.tx <= all.tx
            &&& 0 <= part.lan_rx <= all.lan_rx && 0 <= part.lan_tx <= all.lan_tx
        }),
    decreases rows.len(),
{
    if rows.len() > 0 {
        let fewer = rows.drop_last();
        assert(none_negative(fewer)) by {
            assert forall|i: int| 0 <= i < fewer.len() implies 0 <= (#[trigger] fewer[i]).rx && 0
                <= fewer[i].tx && 0 <= fewer[i].lan_rx && 0 <= fewer[i].lan_tx by {
                assert(fewer[i] == rows[i]);
            }
        }
        assert(rows[rows.len() - 1] == rows.last());
        if n < rows.len() {
            sums_of_fewer(fewer, n, pick);
            assert(fewer.take(n) =~= rows.take(n));
        } else {
            sums_of_fewer(fewer, n - 1, pick);
            assert(fewer.take(n - 1) =~= fewer);
            assert(rows.take(n) =~= rows);
        }
    }
}

/// Rows whose counts are not negative and make up sums of 64 bits can always be added up, by
/// spans and by interfaces.
pub proof fn ordinary_rows_add_up(rows: Seq<Row>, zone: jiff::tz::TimeZone, unit: Unit)
    requires
        none_negative(rows),
        ({
            let all = sum_all(rows);
            all.rx <= i64::MAX && all.tx <= i64::MAX && all.lan_rx <= i64::MAX && all.lan_tx
                <= i64::MAX
        }),
    ensures
        spans_fit(rows, zone, unit),
        cells_fit(rows, zone, unit),
{
    assert forall|n: int, start: int| 0 <= n <= rows.len() implies all_fit(
        #[trigger] sum_where(rows.take(n), in_span(zone, unit, start)),
    ) by {
        sums_of_fewer(rows, n, in_span(zone, unit, start));
    }
    assert forall|name: Seq<char>| spans_fit(#[trigger] of_iface(rows, name), zone, unit) by {
        let part = of_iface(rows, name);
        of_iface_members(rows, name);
        assert(none_negative(part)) by {
            assert forall|i: int| 0 <= i < part.len() implies 0 <= (#[trigger] part[i]).rx && 0
                <= part[i].tx && 0 <= part[i].lan_rx && 0 <= part[i].lan_tx by {
                let k = choose|k: int| 0 <= k < rows.len() && rows[k] == part[i];
                assert(0 <= rows[k].rx);
            }
        }
        of_iface_sum(rows, name, |r: Row| true);
        assert(rows.take(rows.len() as int) =~= rows);
        sums_of_fewer(rows, rows.len() as int, on_iface(|r: Row| true, name));
        assert forall|n: int, start: int| 0 <= n <= part.len() implies all_fit(
            #[trigger] sum_where(part.take(n), in_span(zone, unit, start)),
        ) by {
            sums_of_fewer(part, n, in_span(zone, unit, start));
        }
    }
}

/// On the clock of UTC every span has a start, but for the first month of the range of
/// instants.
pub proof fn ordinary_spans_have_a_start(zone: jiff::tz::TimeZone, unit: Unit, ts: int)
    requires
        is_utc(zone),
        FIRST_INSTANT + 32 * 86400 <= ts <= LAST_INSTANT,
    ensures
        start_exists(zone, unit, ts),
{
    unit_start_is_near(unit, ts);
}

/// The words for different windows differ.
pub proof fn windows_go_by_different_words(p: Seq<char>, q: Seq<char>)
    ensures
        adverb(p) == adverb(q) <==> period_window(p) == period_window(q),
        p != "day"@ && p != "week"@ ==> adverb(p) == adverb("month"@),
{
    reveal_strlit("daily");
    reveal_strlit("weekly");
    reveal_strlit("monthly");
    reveal_strlit("day");
    reveal_strlit("week");
    reveal_strlit("month");
    assert("daily"@.len() == 5 && "weekly"@.len() == 6 && "monthly"@.len() == 7);
    assert("day"@.len() == 3 && "week"@.len() == 4 && "month"@.len() == 5);
}

/// The key of a window is its period, a colon, and the date on which it starts.
pub proof fn keys_name_period_and_date(period: Seq<char>, zone: jiff::tz::TimeZone, start: int)
    ensures
        ({
            let k = key_text(period, zone, start);
            let n = period.len() as int;
            &&& k.take(n) == period
            &&& k[n] == ':'
            &&& k.skip(n + 1) == date_text(clock(zone, start) / 86400)
        }),
{
    reveal_strlit(":");
    let k = key_text(period, zone, start);
    let n = period.len() as int;
    assert(k.take(n) =~= period);
    assert(k.skip(n + 1) =~= date_text(clock(zone, start) / 86400));
}

/// The start of a span on the clock of UTC is the last one that is not after the time.
pub proof fn floors_hold_their_time(unit: Unit, ts: int, r: int)
    requires
        is_floor(unit, ts, false, r),
    ensures
        r <= ts,
        unit == Unit::Hour ==> ts - r < 3600 && r % 3600 == 0,
        unit == Unit::Day ==> ts - r < 86400 && r % 86400 == 0,
        unit == Unit::Week ==> ts - r < 7 * 86400 && (r / 86400 - 4) % 7 == 0,
        unit == Unit::Month ==> date_of(r / 86400).2 == 1 && date_of(r / 86400).0 == date_of(
            ts / 86400,
        ).0 && date_of(r / 86400).1 == date_of(ts / 86400).1,
        FIRST_INSTANT + 32 * 86400 <= ts <= LAST_INSTANT ==> floor_exists(unit, ts, false),
{
    spans_have_their_length(ts);
    unit_start_is_near(unit, ts);
    hours_and_months_start_at_their_start(ts);
    weeks_start_on_monday(ts);
    assert(day_number(1970, 1, 5) == 4);
}

/// Every rollup has a column of its own for the time, and its query starts with that column
/// and puts the rows in its order.
pub proof fn queries_go_by_their_column(table: Seq<char>, other: Seq<char>, one_iface: bool)
    requires
        table == "hourly"@ || table == "daily"@ || table == "monthly"@,
    ensures
        table != other ==> time_column(table) != time_column(other),
        ({
            let (q, c) = (range_query(table, one_iface), time_column(table));
            &&& q.take(7 + c.len() as int) == "SELECT "@ + c
            &&& q.skip(q.len() - 10 - c.len()) == " ORDER BY "@ + c
        }),
{
    reveal_strlit("hourly");
    reveal_strlit("daily");
    reveal_strlit("monthly");
    reveal_strlit("samples");
    reveal_strlit("ts");
    reveal_strlit("ts_hour");
    reveal_strlit("ts_day");
    reveal_strlit("ts_mon");
    reveal_strlit("SELECT ");
    reveal_strlit(" ORDER BY ");
    reveal_strlit("<?2 AND iface=?3 ORDER BY ");
    assert("hourly"@.len() == 6 && "daily"@.len() == 5 && "monthly"@.len() == 7);
    assert("samples"@[0] == 's' && "monthly"@[0] == 'm');
    assert("ts"@.len() == 2 && "ts_hour"@.len() == 7);
    assert("ts_day"@[3] == 'd' && "ts_mon"@[3] == 'm');
    let (q, c) = (range_query(table, one_iface), time_column(table));
    assert(q.take(7 + c.len() as int) =~= "SELECT "@ + c);
    assert(q.skip(q.len() - 10 - c.len()) =~= " ORDER BY "@ + c);
}

} // verus!
