use netmeter::double::{
    at_least, of_bits, of_int, over, push_nearest, times, to_nearest, to_rounded, to_tenths,
    to_whole, Double,
};

fn value(d: Double) -> f64 {
    let mut v = d.mant as f64;
    let mut e = d.exp;
    while e > 0 {
        v *= 2.0;
        e -= 1;
    }
    while e < 0 {
        v /= 2.0;
        e += 1;
    }
    v
}

fn numbers() -> Vec<u64> {
    let mut v = vec![0, 1, 2, 3, 7, 10, 999, 1000, 1024, u64::MAX, u64::MAX - 1, 1 << 53, (1 << 53) + 1];
    let mut n: u64 = 88172645463325252;
    for i in 0..60 {
        n ^= n << 13;
        n ^= n >> 7;
        n ^= n << 17;
        v.push(n >> (i % 64));
    }
    v
}

#[test]
fn integers_round_to_the_nearest() {
    for n in numbers() {
        assert_eq!(value(of_int(n)), n as f64);
    }
}

#[test]
fn products_and_quotients_match() {
    for a in numbers() {
        for b in numbers() {
            assert_eq!(value(times(of_int(a), of_int(b))), a as f64 * b as f64, "{a} {b}");
            if b > 0 {
                assert_eq!(value(over(of_int(a), of_int(b))), a as f64 / b as f64, "{a} {b}");
            }
            assert_eq!(at_least(of_int(a), of_int(b)), a as f64 >= b as f64);
        }
    }
}

#[test]
fn readings_match() {
    for a in numbers() {
        for b in [1u64, 3, 7, 1000, 1024, 1 << 40] {
            let q = over(of_int(a), of_int(b));
            let f = a as f64 / b as f64;
            assert_eq!(to_whole(q, u64::MAX), f as u64);
            assert_eq!(to_whole(q, 100), (f as u64).min(100));
            assert_eq!(to_rounded(q, u64::MAX), f.round() as u64);
            assert_eq!(to_nearest(q).to_string(), format!("{f:.0}"));
            let t = to_tenths(q);
            assert_eq!(format!("{}.{}", t / 10, t % 10), format!("{f:.1}"));
        }
    }
}

#[test]
fn bits_are_read() {
    for f in [1.0f64, 0.5, 50.0, 1e-300, 5e-324, 1e300, 123.456, 2.5, 3.5, 0.5] {
        let d = of_bits(f.to_bits());
        let mut s = String::new();
        push_nearest(&mut s, d);
        assert_eq!(s, format!("{f:.0}"), "{f}");
    }
}
