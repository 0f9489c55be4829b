use netmeter::double::{of_int, over};
use netmeter::fmtx::{bar, fmt_bytes, fmt_date, fmt_date_in};

fn by_floats(b: i64, decimal: bool) -> String {
    let b = b.max(0) as f64;
    let (base, units) = if decimal {
        (1000.0, ["B", "KB", "MB", "GB", "TB", "PB"])
    } else {
        (1024.0, ["B", "KiB", "MiB", "GiB", "TiB", "PiB"])
    };
    let mut v = b;
    let mut u = 0;
    while v >= base && u < 5 {
        v /= base;
        u += 1;
    }
    if u == 0 {
        format!("{v:.0} {}", units[u])
    } else {
        format!("{v:.1} {}", units[u])
    }
}

#[test]
fn the_next_unit_shows_the_same_numeral() {
    for b in [1024i64, 1536, 11_981, 1_048_575, 53_687_091_200, (1 << 50) - 1] {
        let numeral = |b: i64| fmt_bytes(b, false).split(' ').next().unwrap().to_string();
        assert_eq!(numeral(b), numeral(1024 * b), "{b}");
    }
    assert_eq!(fmt_bytes(1536, false), "1.5 KiB");
    assert_eq!(fmt_bytes(1536 * 1024, false), "1.5 MiB");
}

#[test]
fn bytes_in_both_units() {
    assert_eq!(fmt_bytes(0, false), "0 B");
    assert_eq!(fmt_bytes(-5, false), "0 B");
    assert_eq!(fmt_bytes(999, true), "999 B");
    assert_eq!(fmt_bytes(1000, true), "1.0 KB");
    assert_eq!(fmt_bytes(1023, false), "1023 B");
    assert_eq!(fmt_bytes(1024, false), "1.0 KiB");
    assert_eq!(fmt_bytes(1536, false), "1.5 KiB");
    assert_eq!(fmt_bytes(1_073_741_824, false), "1.0 GiB");
    assert_eq!(fmt_bytes(i64::MAX, false), "8192.0 PiB");
    assert_eq!(fmt_bytes(i64::MAX, true), "9223.4 PB");
}

#[test]
fn binary_units_show_the_nearest_tenth() {
    assert_eq!(fmt_bytes(1023, false), "1023 B");
    assert_eq!(fmt_bytes(999, true), "999 B");
    // 1.25 KiB lies between two tenths: the even one is shown
    assert_eq!(fmt_bytes(1280, false), "1.2 KiB");
    assert_eq!(fmt_bytes(1281, false), "1.3 KiB");
    assert_eq!(fmt_bytes((1 << 53) - 1, false), "8.0 PiB");
}

#[test]
fn bytes_match_double_precision() {
    let mut n: i64 = 1;
    for i in 0..3000i64 {
        for d in [-1, 0, 1, 51, 512] {
            let b = n.wrapping_add(d).wrapping_add(i * 37);
            for decimal in [false, true] {
                assert_eq!(fmt_bytes(b, decimal), by_floats(b, decimal), "{b}");
            }
        }
        n = n.wrapping_mul(6364136223846793005).wrapping_add(1442695040888963407) >> (i % 60);
    }
    for k in 0..63 {
        for d in [-1i64, 0, 1] {
            let b = (1i64 << k) + d;
            assert_eq!(fmt_bytes(b, false), by_floats(b, false));
            assert_eq!(fmt_bytes(b, true), by_floats(b, true));
        }
    }
    // ties between two tenths
    for b in [1_126i64, 1_177, 1_228, 1_280, 1_050, 1_150, 1_250, 1_350, 1_450] {
        assert_eq!(fmt_bytes(b, false), by_floats(b, false));
        assert_eq!(fmt_bytes(b, true), by_floats(b, true));
    }
}

#[test]
fn dates_of_utc() {
    assert_eq!(fmt_date(0, false, false), "1970-01-01");
    assert_eq!(fmt_date(1_788_652_799, false, true), "2026-09-05 23:00");
    assert_eq!(fmt_date(951_782_400, false, false), "2000-02-29");
    assert_eq!(fmt_date(-1, false, true), "1969-12-31 23:00");
}

#[test]
fn dates_of_a_zone() {
    let zone = jiff::tz::TimeZone::posix("EST5EDT,M3.2.0,M11.1.0").unwrap();
    assert_eq!(fmt_date_in(1_788_652_800, &zone, true), "2026-09-05 20:00");
    assert_eq!(fmt_date_in(1_768_000_000, &zone, true), "2026-01-09 18:00");
}

#[test]
fn bars() {
    assert_eq!(bar(of_int(0), 10), "░░░░░░░░░░");
    assert_eq!(bar(of_int(1), 10), "██████████");
    assert_eq!(bar(of_int(7), 4), "████");
    assert_eq!(bar(over(of_int(1), of_int(4)), 10), "███░░░░░░░");
    assert_eq!(bar(over(of_int(1), of_int(3)), 3), "█░░");
    assert_eq!(bar(of_int(1), 0), "");
    for n in 0..=50u64 {
        let f = n as f64 / 37.0;
        let fill = (f.clamp(0.0, 1.0) * 10.0).round() as usize;
        let want = "█".repeat(fill) + &"░".repeat(10 - fill);
        assert_eq!(bar(over(of_int(n), of_int(37)), 10), want);
    }
}
