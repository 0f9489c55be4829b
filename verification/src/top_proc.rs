//! The viewer of usage by program.
use crate::config::Config;
use crate::db::{fits, Window};
use crate::fmtx::{bar_of, bytes_text, fmt_bytes};
use crate::live::{share_bar, share_text, Key};
use crate::text::{magnitude, push_repeated, texts};
use vstd::prelude::*;
use vstd::string::*;

verus! {

/// What the keys of the viewer change: the units and the window.
#[derive(Clone, Copy)]
pub struct Viewer {
    pub dec: bool,
    pub window: Window,
}

impl Viewer {
    /// The start: the configured units and a window.
    pub fn new(cfg: &Config, window: Window) -> (r: Viewer)
        ensures
            r.dec == (cfg.units@ == "decimal"@),
            r.window == window,
    {
        Viewer { dec: cfg.decimal_units(), window }
    }

    /// What a key does: `q` and Escape quit, `u` changes the units, `1`, `2` and `3` show
    /// the day, the week and the month. True to quit.
    pub fn press(&mut self, key: Key) -> (quit: bool)
        ensures
            quit == (key == Key::Char('q') || key == Key::Esc),
            *final(self) == viewer_after(*old(self), key),
            final(self).dec == if key == Key::Char('u') {
                !old(self).dec
            } else {
                old(self).dec
            },
            final(self).window == if key == Key::Char('1') {
                Window::Day
            } else if key == Key::Char('2') {
                Window::Week
            } else if key == Key::Char('3') {
                Window::Month
            } else {
                old(self).window
            },
    {
        match key {
            Key::Esc => true,
            Key::Other => false,
            Key::Char(c) => {
                if c == 'q' {
                    return true;
                }
                if c == 'u' {
                    self.dec = !self.dec;
                } else if c == '1' {
                    self.window = Window::Day;
                } else if c == '2' {
                    self.window = Window::Week;
                } else if c == '3' {
                    self.window = Window::Month;
                }
                false
            },
        }
    }
}

/// What a window is called.
pub open spec fn window_name(window: Window) -> Seq<char> {
    match window {
        Window::Day => "today"@,
        Window::Week => "since Monday"@,
        Window::Month => "this month"@,
    }
}

/// What a window is called.
pub fn window_label(window: Window) -> (r: &'static str)
    ensures
        r@ == window_name(window),
{
    match window {
        Window::Day => "today",
        Window::Week => "since Monday",
        Window::Month => "this month",
    }
}

/// What a program has received and sent in a window.
pub struct AppRow {
    pub comm: String,
    pub rx: i64,
    pub tx: i64,
}

/// The bytes of a program.
pub open spec fn app_total(r: AppRow) -> int {
    r.rx + r.tx
}

/// The bytes of all programs.
pub open spec fn apps_total(rows: Seq<AppRow>) -> int
    decreases rows.len(),
{
    if rows.len() == 0 {
        0
    } else {
        apps_total(rows.drop_last()) + app_total(rows.last())
    }
}

/// Whether the bytes of each program, and the running sums of all, fit.
pub open spec fn apps_fit(rows: Seq<AppRow>) -> bool {
    &&& forall|i: int| 0 <= i < rows.len() ==> fits(app_total(#[trigger] rows[i]))
    &&& forall|n: int| 0 <= n <= rows.len() ==> fits(apps_total(#[trigger] rows.take(n)))
}

/// The bytes of all programs; nothing where a sum does not fit.
pub fn total(rows: &Vec<AppRow>) -> (r: Option<i64>)
    ensures
        r is Some <==> apps_fit(rows@),
        r matches Some(n) ==> n == apps_total(rows@),
{
    let mut sum: i64 = 0;
    let mut i: usize = 0;
    assert(rows@.take(0) =~= Seq::empty());
    while i < rows.len()
        invariant
            i <= rows.len(),
            sum == apps_total(rows@.take(i as int)),
            forall|k: int| 0 <= k < i ==> fits(app_total(#[trigger] rows@[k])),
            forall|n: int| 0 <= n <= i ==> fits(apps_total(#[trigger] rows@.take(n))),
        decreases rows.len() - i,
    {
        assert(rows@.take(i + 1).drop_last() =~= rows@.take(i as int));
        let both = match rows[i].rx.checked_add(rows[i].tx) {
            Some(n) => n,
            None => {
                assert(!fits(app_total(rows@[i as int])));
                return None;
            },
        };
        match sum.checked_add(both) {
            Some(n) => {
                sum = n;
            },
            None => {
                assert(!fits(apps_total(rows@.take(i + 1))));
                return None;
            },
        }
        i = i + 1;
    }
    assert(rows@.take(i as int) =~= rows@);
    Some(sum)
}

/// What the first program has moved, one where there is none: the rows come with the
/// busiest program first.
pub open spec fn most(rows: Seq<AppRow>) -> int {
    if rows.len() == 0 {
        1
    } else {
        app_total(rows[0])
    }
}

/// The bar of a part of another number: empty where the quotient is negative or there is
/// none, full where only the other number is zero.
pub open spec fn part_text(part: int, of: int) -> Seq<char> {
    if of == 0 && part > 0 {
        bar_of(10, 10)
    } else if part == 0 || of == 0 || (part > 0) != (of > 0) {
        bar_of(0, 10)
    } else if part > 0 {
        share_text(part as nat, of as nat)
    } else {
        share_text((-part) as nat, (-of) as nat)
    }
}

fn whole_bar(full: bool) -> (r: String)
    ensures
        r@ == bar_of(
            if full {
                10
            } else {
                0
            },
            10,
        ),
{
    let mut r = String::new();
    push_repeated(
        &mut r,
        if full {
            '█'
        } else {
            '░'
        },
        10,
    );
    assert(r@ =~= bar_of(
        if full {
            10
        } else {
            0
        },
        10,
    ));
    r
}

/// The bar of a part of another number.
pub fn part_bar(part: i64, of: i64) -> (r: String)
    ensures
        r@ == part_text(part as int, of as int),
{
    if of == 0 && part > 0 {
        whole_bar(true)
    } else if part == 0 || of == 0 || (part > 0) != (of > 0) {
        whole_bar(false)
    } else {
        share_bar(magnitude(part), magnitude(of))
    }
}

/// The cells of a program in the table: its name, the bytes received, sent and both, and
/// its share.
pub open spec fn app_cells(r: AppRow, of: int, dec: bool) -> Seq<Seq<char>> {
    seq![
        r.comm@,
        bytes_text(r.rx as int, dec),
        bytes_text(r.tx as int, dec),
        bytes_text(app_total(r), dec),
        part_text(app_total(r), of),
    ]
}

/// The cells of all programs; nothing where the bytes of one do not fit.
pub fn table(rows: &Vec<AppRow>, dec: bool) -> (r: Option<Vec<Vec<String>>>)
    ensures
        r is Some <==> forall|i: int|
            0 <= i < rows.len() ==> fits(app_total(#[trigger] rows@[i])),
        r matches Some(v) ==> v@.len() == rows@.len() && forall|i: int|
            0 <= i < v@.len() ==> texts((#[trigger] v@[i])@) == app_cells(
                rows@[i],
                most(rows@),
                dec,
            ),
{
    let mut v: Vec<Vec<String>> = Vec::new();
    let mut of: i64 = 1;
    let mut i: usize = 0;
    while i < rows.len()
        invariant
            i <= rows.len(),
            v.len() == i,
            i == 0 ==> of == 1,
            i > 0 ==> of == most(rows@),
            forall|k: int| 0 <= k < i ==> fits(app_total(#[trigger] rows@[k])),
            forall|k: int|
                0 <= k < v@.len() ==> texts((#[trigger] v@[k])@) == app_cells(
                    rows@[k],
                    most(rows@),
                    dec,
                ),
        decreases rows.len() - i,
    {
        let x = &rows[i];
        let both = match x.rx.checked_add(x.tx) {
            Some(n) => n,
            None => {
                assert(!fits(app_total(rows@[i as int])));
                return None;
            },
        };
        if i == 0 {
            of = both;
        }
        let mut line: Vec<String> = Vec::new();
        line.push(x.comm.clone());
        line.push(fmt_bytes(x.rx, dec));
        line.push(fmt_bytes(x.tx, dec));
        line.push(fmt_bytes(both, dec));
        line.push(part_bar(both, of));
        assert(texts(line@) =~= app_cells(*x, most(rows@), dec));
        v.push(line);
        i = i + 1;
    }
    Some(v)
}

/// The bytes of programs and of more programs add up to those of all; one program counts
/// for what it received and sent.
pub proof fn programs_add_up(a: Seq<AppRow>, b: Seq<AppRow>, r: AppRow)
    ensures
        apps_total(a + b) == apps_total(a) + apps_total(b),
        apps_total(seq![r]) == r.rx + r.tx,
    decreases b.len(),
{
    assert(seq![r].drop_last() =~= Seq::empty());
    assert(apps_total(Seq::empty()) == 0);
    if b.len() == 0 {
        assert(a + b =~= a);
    } else {
        programs_add_up(a, b.drop_last(), r);
        assert((a + b).drop_last() =~= a + b.drop_last());
        assert((a + b).last() == b.last());
    }
}

/// The cells of a program are its name, its bytes received, sent and both, and its share of
/// what the first program moved.
pub proof fn program_cells_stand_in_order(rows: Seq<AppRow>, i: int, dec: bool)
    requires
        0 <= i < rows.len(),
    ensures
        ({
            let c = app_cells(rows[i], most(rows), dec);
            &&& c.len() == 5
            &&& c[0] == rows[i].comm@
            &&& c[1] == bytes_text(rows[i].rx as int, dec)
            &&& c[2] == bytes_text(rows[i].tx as int, dec)
            &&& c[3] == bytes_text(rows[i].rx + rows[i].tx, dec)
            &&& c[4] == part_text(rows[i].rx + rows[i].tx, rows[0].rx + rows[0].tx)
        }),
{
}

/// The bar of a part that is no less than another number is full, and that of nothing is
/// empty; numbers of different signs make no part. A part does not depend on the sign that
/// both numbers share.
pub proof fn parts_of_another_number(part: int, of: int)
    ensures
        part == 0 ==> part_text(part, of) == bar_of(0, 10),
        part < 0 < of || of < 0 < part || (of == 0 && part < 0) ==> part_text(part, of) == bar_of(
            0,
            10,
        ),
        of == 0 && part > 0 ==> part_text(part, of) == bar_of(10, 10),
        part > 0 && of > 0 ==> part_text(part, of) == part_text(-part, -of) && part_text(part, of)
            == share_text(part as nat, of as nat),
{
}

proof fn fewer_programs_move_less(rows: Seq<AppRow>, n: int)
    requires
        forall|i: int| 0 <= i < rows.len() ==> 0 <= (#[trigger] rows[i]).rx && 0 <= rows[i].tx,
        0 <= n <= rows.len(),
    ensures
        0 <= apps_total(rows.take(n)) <= apps_total(rows),
        forall|i: int| 0 <= i < rows.len() ==> app_total(#[trigger] rows[i]) <= apps_total(rows),
    decreases rows.len(),
{
    if rows.len() > 0 {
        let fewer = rows.drop_last();
        assert forall|i: int| 0 <= i < fewer.len() implies 0 <= (#[trigger] fewer[i]).rx && 0
            <= fewer[i].tx by {
            assert(fewer[i] == rows[i]);
        }
        assert(rows[rows.len() - 1] == rows.last());
        let m = if n < rows.len() {
            n
        } else {
            n - 1
        };
        fewer_programs_move_less(fewer, m);
        if n < rows.len() {
            assert(fewer.take(n) =~= rows.take(n));
        } else {
            assert(rows.take(n) =~= rows);
        }
        assert forall|i: int| 0 <= i < rows.len() implies app_total(#[trigger] rows[i])
            <= apps_total(rows) by {
            if i < fewer.len() {
                assert(app_total(fewer[i]) <= apps_total(fewer));
            }
        }
        fewer_programs_move_less(fewer, fewer.len() as int);
        assert(fewer.take(fewer.len() as int) =~= fewer);
    }
}

/// The bytes of programs can be added up wherever they are a count of 64 bits.
pub proof fn ordinary_programs_add_up(rows: Seq<AppRow>)
    requires
        forall|i: int| 0 <= i < rows.len() ==> 0 <= (#[trigger] rows[i]).rx && 0 <= rows[i].tx,
        apps_total(rows) <= i64::MAX,
    ensures
        apps_fit(rows),
{
    assert forall|i: int| 0 <= i < rows.len() implies fits(app_total(#[trigger] rows[i])) by {
        fewer_programs_move_less(rows, 0);
        assert(0 <= rows[i].rx && 0 <= rows[i].tx);
    }
    assert forall|n: int| 0 <= n <= rows.len() implies fits(
        apps_total(#[trigger] rows.take(n)),
    ) by {
        fewer_programs_move_less(rows, n);
    }
}

/// The viewer after a key.
pub open spec fn viewer_after(v: Viewer, key: Key) -> Viewer {
    match key {
        Key::Char('u') => Viewer { dec: !v.dec, ..v },
        Key::Char('1') => Viewer { window: Window::Day, ..v },
        Key::Char('2') => Viewer { window: Window::Week, ..v },
        Key::Char('3') => Viewer { window: Window::Month, ..v },
        _ => v,
    }
}

/// Pressing for other units twice changes nothing, a window stays until another is asked
/// for, and the keys for windows and units do not bear on each other.
pub proof fn viewer_keys_keep_apart(v: Viewer, key: Key)
    ensures
        viewer_after(viewer_after(v, Key::Char('u')), Key::Char('u')) == v,
        viewer_after(v, Key::Char('u')).dec != v.dec,
        viewer_after(v, Key::Char('u')).window == v.window,
        key != Key::Char('u') ==> viewer_after(v, key).dec == v.dec,
        key != Key::Char('u') ==> viewer_after(viewer_after(v, key), key) == viewer_after(v, key),
        key != Key::Char('1') && key != Key::Char('2') && key != Key::Char('3') ==> viewer_after(
            v,
            key,
        ).window == v.window,
{
}

} // verus!
