//! Byte counts, dates and bars in text.
use crate::calendar::{
    clock, date_of, date_text, dates_are_read_back, hour_at, is_utc, push_date, time_zone,
    FIRST_INSTANT, LAST_INSTANT,
};
use crate::double::{
    at_least, half_even, half_even_scales, int_double, int_is_exact, integers_are_not_rounded,
    nearest_parts_are_near, of_int, one, over, part_of_1024_is_exact, product, quotient,
    quotient_reaches_one, rounded, tenths, times, times_1024_is_exact, to_rounded, to_tenths,
    unit_bits, whole_products_are_exact, whole_quotients_are_exact, Double,
};
use crate::text::{
    decimal, digit_char, digits_value, push_decimal, push_repeated, push_zero_padded, repeated,
    zero_padded, zeros_do_not_change_a_number,
};
use vstd::arithmetic::power2::{
    lemma2_to64, lemma2_to64_rest, lemma_pow2_adds, lemma_pow2_pos, pow2,
};
use vstd::prelude::*;
use vstd::string::*;

verus! {

// ---- bytes ----

/// The name of a unit: bytes, then a thousand or 1024 times more at each step.
pub open spec fn unit_name(step: nat, dec: bool) -> Seq<char> {
    if step == 0 {
        "B"@
    } else if dec {
        if step == 1 {
            "KB"@
        } else if step == 2 {
            "MB"@
        } else if step == 3 {
            "GB"@
        } else if step == 4 {
            "TB"@
        } else {
            "PB"@
        }
    } else if step == 1 {
        "KiB"@
    } else if step == 2 {
        "MiB"@
    } else if step == 3 {
        "GiB"@
    } else if step == 4 {
        "TiB"@
    } else {
        "PiB"@
    }
}

/// The factor from one unit to the next.
pub open spec fn unit_base(dec: bool) -> nat {
    if dec {
        1000
    } else {
        1024
    }
}

/// A number of bytes divided by the base `step` times, in double precision.
pub open spec fn in_unit(bytes: nat, step: nat, dec: bool) -> Double
    decreases step,
{
    if step == 0 {
        int_double(bytes)
    } else {
        quotient(in_unit(bytes, (step - 1) as nat, dec), int_double(unit_base(dec)))
    }
}

/// Whether `step` is the unit a number of bytes is shown in: the first one in which it
/// is below the base, or the last one.
pub open spec fn shown_in(bytes: nat, step: nat, dec: bool) -> bool {
    &&& step <= 5
    &&& forall|k: nat|
        k < step ==> (#[trigger] in_unit(bytes, k, dec)).units() >= unit_base(dec) * one()
    &&& step < 5 ==> in_unit(bytes, step, dec).units() < unit_base(dec) * one()
}

/// A number with one digit after the point.
pub open spec fn one_place(n: nat) -> Seq<char> {
    decimal(n / 10) + "."@ + seq![digit_char((n % 10) as int)]
}

/// A number of bytes in a given unit: whole bytes, else one digit after the point.
pub open spec fn bytes_in(bytes: nat, step: nat, dec: bool) -> Seq<char> {
    if step == 0 {
        decimal(bytes) + " "@ + unit_name(0, dec)
    } else {
        one_place(tenths(in_unit(bytes, step, dec))) + " "@ + unit_name(step, dec)
    }
}

/// A number of bytes, in text; a negative one counts as none.
pub open spec fn bytes_text(b: int, dec: bool) -> Seq<char> {
    let bytes = if b < 0 {
        0
    } else {
        b as nat
    };
    bytes_in(bytes, choose|step: nat| shown_in(bytes, step, dec), dec)
}

proof fn shown_in_one(bytes: nat, a: nat, b: nat, dec: bool)
    requires
        shown_in(bytes, a, dec),
        shown_in(bytes, b, dec),
    ensures
        a == b,
{
    let da = in_unit(bytes, a, dec);
    let db = in_unit(bytes, b, dec);
    if a < b {
        assert(da.units() >= unit_base(dec) * one());
    } else if b < a {
        assert(db.units() >= unit_base(dec) * one());
    }
}

/// A count below the first unit is shown as it is.
pub proof fn small_counts_are_exact(b: int, dec: bool)
    requires
        0 <= b < unit_base(dec),
    ensures
        bytes_text(b, dec) == decimal(b as nat) + " B"@,
{
    let bytes = b as nat;
    lemma_pow2_pos(unit_bits());
    let o = one();
    if b == 0 {
        let d = int_double(0);
        let p = pow2((d.exp + unit_bits()) as nat);
        assert(0nat * p == 0) by (nonlinear_arith);
    } else {
        int_is_exact(bytes);
    }
    assert(in_unit(bytes, 0, dec).units() < unit_base(dec) * o) by (nonlinear_arith)
        requires
            in_unit(bytes, 0, dec).units() == b * o,
            0 <= b < unit_base(dec),
            o > 0,
    ;
    assert(shown_in(bytes, 0, dec));
    let chosen = choose|step: nat| shown_in(bytes, step, dec);
    shown_in_one(bytes, 0, chosen, dec);
    reveal_strlit(" ");
    reveal_strlit("B");
    reveal_strlit(" B");
    assert(bytes_text(b, dec) =~= decimal(bytes) + " B"@);
}

proof fn binary_steps(bytes: nat, step: nat)
    requires
        0 < bytes < 0x20_0000_0000_0000,
        step <= 5,
    ensures
        ({
            let d = in_unit(bytes, step, false);
            &&& 0x10_0000_0000_0000 <= d.mant < 0x20_0000_0000_0000
            &&& -53 - 10 * step <= d.exp <= 0
            &&& d.units() * pow2(10 * step) == bytes * one()
        }),
    decreases step,
{
    lemma2_to64();
    if step == 0 {
        int_is_exact(bytes);
        let u = int_double(bytes).units();
        assert(u * 1 == u) by (nonlinear_arith);
    } else {
        let before = (step - 1) as nat;
        binary_steps(bytes, before);
        part_of_1024_is_exact(in_unit(bytes, before, false));
        lemma_pow2_adds(10, 10 * before);
        let u = in_unit(bytes, step, false).units();
        let p = pow2(10 * before);
        assert(u * (1024 * p) == (u * 1024) * p) by (nonlinear_arith);
        assert(10 + 10 * before == 10 * step);
    }
}

/// In binary units a count below two to the 53rd is shown by the tenth that is nearest to
/// its true value.
pub proof fn binary_units_show_the_nearest_tenth(bytes: nat, step: nat)
    requires
        bytes < 0x20_0000_0000_0000,
        1 <= step <= 5,
        shown_in(bytes, step, false),
    ensures
        bytes_text(bytes as int, false) == one_place(half_even(10 * bytes, pow2(10 * step))) + " "@
            + unit_name(step, false),
{
    let o = one();
    let p = pow2(10 * step);
    let u = in_unit(bytes, step, false).units();
    lemma_pow2_pos(unit_bits());
    lemma_pow2_pos(10 * step);
    if bytes == 0 {
        let d = int_double(0);
        let q = pow2((d.exp + unit_bits()) as nat);
        assert(0nat * q == 0) by (nonlinear_arith);
        assert(in_unit(0, 0, false).units() >= unit_base(false) * o);
        assert(1024 * o > 0) by (nonlinear_arith)
            requires
                o > 0,
        ;
    }
    binary_steps(bytes, step);
    half_even_scales(p, 10 * u, o);
    half_even_scales(o, 10 * bytes, p);
    assert(p * (10 * u) == o * (10 * bytes)) by (nonlinear_arith)
        requires
            u * p == bytes * o,
    ;
    assert(p * o == o * p) by (nonlinear_arith);
    let chosen = choose|s: nat| shown_in(bytes, s, false);
    shown_in_one(bytes, step, chosen, false);
}

proof fn steps_move_on(bytes: nat, step: nat)
    requires
        0 < bytes < 0x20_0000_0000_0000,
    ensures
        in_unit(1024 * bytes, step + 1, false) == in_unit(bytes, step, false),
    decreases step,
{
    if step == 0 {
        int_is_exact(bytes);
        times_1024_is_exact(bytes);
        reveal_with_fuel(in_unit, 2);
        part_of_1024_is_exact(int_double(1024 * bytes));
    } else {
        steps_move_on(bytes, (step - 1) as nat);
    }
}

/// In binary units 1024 times a count shows the same numeral in the next unit.
pub proof fn next_unit_shows_the_same_numeral(bytes: nat)
    requires
        1024 <= bytes < 0x4_0000_0000_0000,
    ensures
        exists|step: nat|
            {
                &&& 1 <= step <= 4
                &&& #[trigger] shown_in(bytes, step, false)
                &&& bytes_text(bytes as int, false) == one_place(
                    tenths(in_unit(bytes, step, false)),
                ) + " "@ + unit_name(step, false)
                &&& bytes_text((1024 * bytes) as int, false) == one_place(
                    tenths(in_unit(bytes, step, false)),
                ) + " "@ + unit_name(step + 1, false)
            },
{
    let o = one();
    lemma_pow2_pos(unit_bits());
    lemma2_to64();
    lemma2_to64_rest();
    let step: nat = if bytes < 0x10_0000 {
        1
    } else if bytes < 0x4000_0000 {
        2
    } else if bytes < 0x100_0000_0000 {
        3
    } else {
        4
    };
    assert forall|k: nat| k <= step implies (k < step <==> (#[trigger] in_unit(
        bytes,
        k,
        false,
    )).units() >= 1024 * o) by {
        binary_steps(bytes, k);
        let u = in_unit(bytes, k, false).units();
        let p = pow2(10 * k);
        lemma_pow2_pos(10 * k);
        assert(p == if k == 0 {
            1nat
        } else if k == 1 {
            0x400
        } else if k == 2 {
            0x10_0000
        } else if k == 3 {
            0x4000_0000
        } else {
            0x100_0000_0000
        });
        assert(u >= 1024 * o <==> bytes >= 1024 * p) by (nonlinear_arith)
            requires
                u * p == bytes * o,
                p > 0,
                o > 0,
        {
            if u >= 1024 * o {
                assert(u * p >= (1024 * o) * p);
                assert((1024 * p) * o <= bytes * o);
            }
            if bytes >= 1024 * p {
                assert(bytes * o >= (1024 * p) * o);
                assert((1024 * o) * p <= u * p);
            }
        }
    }
    assert(shown_in(bytes, step, false));
    let more = 1024 * bytes;
    steps_move_on(bytes, step);
    times_1024_is_exact(bytes);
    assert forall|k: nat| k < step + 1 implies (#[trigger] in_unit(more, k, false)).units() >= 1024
        * o by {
        if k == 0 {
            assert(more * o >= 1024 * o) by (nonlinear_arith)
                requires
                    more >= 1024,
            ;
        } else {
            steps_move_on(bytes, (k - 1) as nat);
        }
    }
    assert(shown_in(more, step + 1, false));
    let (a, b) = (
        choose|s: nat| shown_in(bytes, s, false),
        choose|s: nat| shown_in(more, s, false),
    );
    shown_in_one(bytes, step, a, false);
    shown_in_one(more, step + 1, b, false);
}

/// Appends a number of tenths with one digit after the point.
pub fn push_one_place(out: &mut String, n: u128)
    ensures
        final(out)@ == old(out)@ + one_place(n as nat),
{
    push_decimal(out, n / 10);
    out.append(".");
    out.push((48u8 + (n % 10) as u8) as char);
    assert(out@ =~= old(out)@ + one_place(n as nat));
}

/// The name of a unit.
fn unit_label(step: usize, dec: bool) -> (r: &'static str)
    ensures
        r@ == unit_name(step as nat, dec),
{
    if step == 0 {
        "B"
    } else if dec {
        match step {
            1 => "KB",
            2 => "MB",
            3 => "GB",
            4 => "TB",
            _ => "PB",
        }
    } else {
        match step {
            1 => "KiB",
            2 => "MiB",
            3 => "GiB",
            4 => "TiB",
            _ => "PiB",
        }
    }
}

/// Human byte formatting: binary units (KiB, MiB, ...) or decimal ones.
pub fn fmt_bytes(b: i64, dec: bool) -> (r: String)
    ensures
        r@ == bytes_text(b as int, dec),
{
    let n: u64 = if b < 0 {
        0
    } else {
        b as u64
    };
    let ghost bytes = n as nat;
    let base_n: u64 = if dec {
        1000
    } else {
        1024
    };
    let base = of_int(base_n);
    let mut v = of_int(n);
    let mut step: usize = 0;
    let ghost top = 0x1_0000_0000_0000_0000 * one();
    proof {
        lemma_pow2_pos(unit_bits());
        let o = one();
        assert(2 * n * o <= 0x1_0000_0000_0000_0000 * o) by (nonlinear_arith)
            requires
                n <= 0x7fff_ffff_ffff_ffff,
        ;
    }
    while step < 5 && at_least(v, base)
        invariant
            step <= 5,
            base_n == unit_base(dec),
            base == int_double(unit_base(dec)),
            base.units() == unit_base(dec) * one(),
            base.mant > 0,
            base.within(117),
            one() > 0,
            v == in_unit(bytes, step as nat, dec),
            v.within(117 + 234 * step),
            v.units() <= top,
            top == 0x1_0000_0000_0000_0000 * one(),
            forall|k: nat|
                k < step ==> (#[trigger] in_unit(bytes, k, dec)).units() >= unit_base(dec)
                    * one(),
        decreases 5 - step,
    {
        let next = over(v, base);
        proof {
            let o = one();
            let w = next.units();
            let b0 = unit_base(dec);
            assert(w <= v.units()) by (nonlinear_arith)
                requires
                    w * (b0 * o) <= 2 * (v.units() * o),
                    b0 >= 1000,
                    o > 0,
            ;
        }
        v = next;
        step = step + 1;
    }
    proof {
        assert(shown_in(bytes, step as nat, dec));
        let chosen = choose|s: nat| shown_in(bytes, s, dec);
        shown_in_one(bytes, step as nat, chosen, dec);
        let o = one();
        assert(v.units() / o < 0x40_0000_0000_0000_0000) by (nonlinear_arith)
            requires
                v.units() <= 0x1_0000_0000_0000_0000 * o,
                o > 0,
        ;
    }
    let mut r = String::new();
    if step == 0 {
        push_decimal(&mut r, n as u128);
    } else {
        push_one_place(&mut r, to_tenths(v));
    }
    r.append(" ");
    r.append(unit_label(step, dec));
    assert(r@ =~= bytes_in(bytes, step as nat, dec));
    r
}

// ---- dates ----

/// The date that the clocks of a zone show, with the hour where asked for.
pub open spec fn moment_text(zone: jiff::tz::TimeZone, ts: int, with_time: bool) -> Seq<char> {
    let civil = clock(zone, ts);
    if with_time {
        date_text(civil / 86400) + " "@ + zero_padded(civil / 3600 % 24, 2) + ":00"@
    } else {
        date_text(civil / 86400)
    }
}

/// The date of an instant in a zone, with the hour where asked for.
pub fn fmt_date_in(ts: i64, zone: &jiff::tz::TimeZone, with_time: bool) -> (r: String)
    requires
        FIRST_INSTANT <= ts <= LAST_INSTANT,
    ensures
        r@ == moment_text(*zone, ts as int, with_time),
{
    let mut r = String::new();
    push_date(&mut r, ts, zone);
    if with_time {
        r.append(" ");
        push_zero_padded(&mut r, hour_at(ts, zone), 2);
        r.append(":00");
    }
    assert(r@ =~= moment_text(*zone, ts as int, with_time));
    r
}

/// The date of an instant on the machine's clock or that of UTC, with the hour where
/// asked for.
pub fn fmt_date(ts: i64, local: bool, with_time: bool) -> (r: String)
    requires
        FIRST_INSTANT <= ts <= LAST_INSTANT,
    ensures
        exists|zone: jiff::tz::TimeZone|
            (!local ==> is_utc(zone)) && r@ == #[trigger] moment_text(
                zone,
                ts as int,
                with_time,
            ),
{
    let zone = time_zone(local);
    fmt_date_in(ts, &zone, with_time)
}

// ---- bars ----

/// How many of `w` cells a fraction fills.
pub open spec fn filled(frac: Double, w: nat) -> nat {
    let f = if frac.units() >= one() {
        int_double(1)
    } else {
        frac
    };
    let n = rounded(product(f, int_double(w)));
    if n <= w {
        n
    } else {
        w
    }
}

/// A bar of `w` cells, `n` of them full.
pub open spec fn bar_of(n: nat, w: nat) -> Seq<char> {
    repeated('█', n as int) + repeated('░', w - n)
}

/// A bar of `w` cells, filled up to a fraction; more than one fills it.
pub fn bar(frac: Double, w: usize) -> (r: String)
    requires
        frac.within(1000),
    ensures
        r@ == bar_of(filled(frac, w as nat), w as nat),
{
    let unit = of_int(1);
    let f = if at_least(frac, unit) {
        unit
    } else {
        frac
    };
    let scaled = times(f, of_int(w as u64));
    let fill = to_rounded(scaled, w as u64) as usize;
    let mut r = String::new();
    push_repeated(&mut r, '█', fill);
    push_repeated(&mut r, '░', w - fill);
    assert(r@ =~= bar_of(filled(frac, w as nat), w as nat));
    r
}

// ---- units, hours and cells ----

/// The bytes of a unit: a thousand or 1024 times those of the unit before.
pub open spec fn unit_size(step: nat, dec: bool) -> nat
    decreases step,
{
    if step == 0 {
        1
    } else if dec {
        1000 * unit_size((step - 1) as nat, dec)
    } else {
        1024 * unit_size((step - 1) as nat, dec)
    }
}

proof fn sizes_grow(k: nat, step: nat, j: nat, dec: bool)
    requires
        0 < k,
        j <= step,
    ensures
        k <= k * unit_size(j, dec) <= k * unit_size(step, dec),
        1 <= unit_size(j, dec),
        j >= 1 ==> unit_size(j, dec) >= unit_base(dec),
    decreases step,
{
    if j < step {
        let before = unit_size((step - 1) as nat, dec);
        sizes_grow(k, (step - 1) as nat, j, dec);
        assert(k * before <= k * unit_size(step, dec)) by (nonlinear_arith)
            requires
                before <= unit_size(step, dec),
                k > 0,
        ;
    } else if step > 0 {
        let before = unit_size((step - 1) as nat, dec);
        sizes_grow(k, (step - 1) as nat, (step - 1) as nat, dec);
        assert(k * before <= k * unit_size(step, dec)) by (nonlinear_arith)
            requires
                before <= unit_size(step, dec),
                k > 0,
        ;
    } else {
        assert(k * 1 == k);
    }
}

proof fn whole_steps(k: nat, step: nat, j: nat, dec: bool)
    requires
        0 < k,
        j <= step,
        k * unit_size(step, dec) < 0x20_0000_0000_0000,
    ensures
        in_unit(k * unit_size(step, dec), j, dec) == int_double(
            k * unit_size((step - j) as nat, dec),
        ),
    decreases j,
{
    if j > 0 {
        let left = (step - j) as nat;
        let b = unit_base(dec);
        let m = k * unit_size(left, dec);
        whole_steps(k, step, (j - 1) as nat, dec);
        sizes_grow(k, step, left, dec);
        sizes_grow(k, step, left + 1, dec);
        assert(unit_size(left + 1, dec) == b * unit_size(left, dec));
        assert(k * (b * unit_size(left, dec)) == m * b) by (nonlinear_arith)
            requires
                m == k * unit_size(left, dec),
        ;
        whole_quotients_are_exact(m, b);
    }
}

/// A whole number of a unit, below that of the next one, is shown as that number with a
/// zero behind the point, and the name of the unit.
#[verifier::spinoff_prover]
pub proof fn whole_units_are_shown_whole(k: nat, step: nat, dec: bool)
    requires
        0 < k,
        1 <= step <= 5,
        step < 5 ==> k < unit_base(dec),
        k * unit_size(step, dec) < 0x20_0000_0000_0000,
    ensures
        bytes_text((k * unit_size(step, dec)) as int, dec) == decimal(k) + ".0 "@ + unit_name(
            step,
            dec,
        ),
{
    let n = k * unit_size(step, dec);
    let o = one();
    let b = unit_base(dec);
    lemma_pow2_pos(unit_bits());
    sizes_grow(k, step, step, dec);
    assert forall|j: nat| j < step implies (#[trigger] in_unit(n, j, dec)).units() >= b * o by {
        let left = (step - j) as nat;
        let m = k * unit_size(left, dec);
        whole_steps(k, step, j, dec);
        sizes_grow(k, step, left, dec);
        assert(m >= b) by (nonlinear_arith)
            requires
                m == k * unit_size(left, dec),
                unit_size(left, dec) >= b,
                k >= 1,
        ;
        int_is_exact(m);
        assert(m * o >= b * o) by (nonlinear_arith)
            requires
                m >= b,
        ;
    }
    whole_steps(k, step, step, dec);
    assert(unit_size(0, dec) == 1);
    assert(k * 1 == k) by (nonlinear_arith);
    integers_are_not_rounded(k);
    int_is_exact(k);
    if step < 5 {
        assert(k * o < b * o) by (nonlinear_arith)
            requires
                k < b,
                o > 0,
        ;
    }
    assert(shown_in(n, step, dec));
    let chosen = choose|s: nat| shown_in(n, s, dec);
    shown_in_one(n, step, chosen, dec);
    reveal_strlit(".");
    reveal_strlit(" ");
    reveal_strlit(".0 ");
    assert((10 * k) / 10 == k && (10 * k) % 10 == 0);
    assert(bytes_text(n as int, dec) =~= decimal(k) + ".0 "@ + unit_name(step, dec));
}

/// No bytes are shown of a negative count, whole bytes of one below the first unit.
pub proof fn negative_counts_are_none(b: int, dec: bool)
    requires
        b < 0,
    ensures
        bytes_text(b, dec) == bytes_text(0, dec),
        bytes_text(b, dec) == seq!['0', ' ', 'B'],
{
    small_counts_are_exact(0, dec);
    reveal_strlit(" B");
    reveal_with_fuel(decimal, 2);
    assert(decimal(0) =~= seq!['0']);
    assert(bytes_text(b, dec) =~= seq!['0', ' ', 'B']);
}

/// The units of both kinds share their first letters; the binary ones have an i behind it.
pub proof fn units_share_their_letters(step: nat)
    requires
        1 <= step <= 5,
    ensures
        ({
            let letter = seq!['K', 'M', 'G', 'T', 'P'][step - 1];
            &&& unit_name(step, true) == seq![letter, 'B']
            &&& unit_name(step, false) == seq![letter, 'i', 'B']
        }),
{
    reveal_strlit("KB");
    reveal_strlit("MB");
    reveal_strlit("GB");
    reveal_strlit("TB");
    reveal_strlit("PB");
    reveal_strlit("KiB");
    reveal_strlit("MiB");
    reveal_strlit("GiB");
    reveal_strlit("TiB");
    reveal_strlit("PiB");
    let letter = seq!['K', 'M', 'G', 'T', 'P'][step - 1];
    assert(unit_name(step, true) =~= seq![letter, 'B']);
    assert(unit_name(step, false) =~= seq![letter, 'i', 'B']);
}

/// A moment is shown as its date, and where asked for with the hour behind it, in two
/// digits and on the hour.
#[verifier::spinoff_prover]
pub proof fn moments_are_shown_to_the_hour(zone: jiff::tz::TimeZone, ts: int)
    requires
        0 <= date_of(clock(zone, ts) / 86400).0 <= 9999,
    ensures
        ({
            let s = moment_text(zone, ts, true);
            &&& s.len() == 16
            &&& s.take(10) == moment_text(zone, ts, false)
            &&& moment_text(zone, ts, false) == date_text(clock(zone, ts) / 86400)
            &&& s[10] == ' '
            &&& digits_value(s.subrange(11, 13), 10) == Some(clock(zone, ts) / 3600 % 24)
            &&& s.skip(13) == seq![':', '0', '0']
        }),
{
    let civil = clock(zone, ts);
    let hour = civil / 3600 % 24;
    let s = moment_text(zone, ts, true);
    dates_are_read_back(civil / 86400);
    zeros_do_not_change_a_number(hour as nat, 2);
    reveal_with_fuel(decimal, 3);
    assert(decimal(hour as nat).len() <= 2);
    reveal_strlit(" ");
    reveal_strlit(":00");
    assert(s.take(10) =~= date_text(civil / 86400));
    assert(s.subrange(11, 13) =~= zero_padded(hour, 2));
    assert(s.skip(13) =~= seq![':', '0', '0']);
}

/// A bar is filled from the left: full cells, then empty ones, all in all its width.
pub proof fn bars_are_filled_from_the_left(n: nat, w: nat)
    requires
        n <= w,
    ensures
        bar_of(n, w).len() == w,
        forall|i: int| 0 <= i < n ==> #[trigger] bar_of(n, w)[i] == '█',
        forall|i: int| n <= i < w ==> #[trigger] bar_of(n, w)[i] == '░',
{
}

/// A part of a whole fills the cells that are nearest to it, all of them where it is the
/// whole or more.
pub proof fn parts_fill_the_nearest_cells(a: nat, b: nat, w: nat)
    requires
        0 < a < 0x20_0000_0000_0000,
        0 < b < 0x20_0000_0000_0000,
        0 < w < 0x1000,
        a * w < 0x4_0000_0000_0000,
    ensures
        ({
            let n = filled(quotient(int_double(a), int_double(b)), w);
            &&& n <= w
            &&& a >= b ==> n == w
            &&& a < b ==> 2 * (n * b) <= 2 * (a * w) + b && 2 * (a * w) <= 2 * (n * b) + b
        }),
{
    quotient_reaches_one(a, b);
    if a >= b {
        whole_products_are_exact(1, w);
        integers_are_not_rounded(w);
        assert(1 * w == w);
    } else {
        nearest_parts_are_near(a, b, w);
        let n = rounded(product(quotient(int_double(a), int_double(b)), int_double(w)));
        assert(n <= w) by (nonlinear_arith)
            requires
                2 * (n * b) <= 2 * (a * w) + b,
                a < b,
                w > 0,
        {
            if n >= w + 1 {
                assert(n * b >= (w + 1) * b);
                assert(a * w <= (b - 1) * w);
            }
        }
    }
}

} // verus!
