//! Binary64 arithmetic on integers.
//!
//! Shares, rates and percentages are defined by double-precision arithmetic: every
//! operation gives the nearest value with a 53-bit significand, ties to even. This
//! module computes those values exactly, for non-negative numbers far from the ends of
//! the exponent range.
use crate::text::{decimal, push_decimal, push_scaled};
use vstd::arithmetic::div_mod::{lemma_div_multiples_vanish_quotient, lemma_truncate_middle};
use vstd::arithmetic::power2::{
    lemma2_to64, lemma2_to64_rest, lemma_pow2_adds, lemma_pow2_pos, lemma_pow2_strictly_increases,
    lemma_pow2_unfold, pow2,
};
use vstd::prelude::*;

verus! {

/// Numbers are counted in units of two to the minus this power.
pub open spec fn unit_bits() -> nat {
    4000
}

/// The number of units in the number one.
pub open spec fn one() -> nat {
    pow2(unit_bits())
}

/// A non-negative double-precision number: `mant` times two to the power `exp`.
#[derive(Clone, Copy)]
pub struct Double {
    pub mant: u64,
    pub exp: i32,
}

impl Double {
    /// The number, counted in units.
    pub open spec fn units(self) -> nat {
        self.mant as nat * pow2((self.exp + unit_bits()) as nat)
    }

    /// A significand of 53 bits and an exponent within the given bound.
    pub open spec fn within(self, bound: int) -> bool {
        self.mant <= 0x20_0000_0000_0000 && -bound <= self.exp <= bound
    }
}

/// The integer nearest to `n / d`; the even one where two are equally near.
pub open spec fn half_even(n: nat, d: nat) -> nat {
    let q = n / d;
    let r = n % d;
    if 2 * r > d || (2 * r == d && q % 2 == 1) {
        q + 1
    } else {
        q
    }
}

/// Whether `n / d`, divided by two to the power `e`, lies from two to the 52nd up to two
/// to the 53rd.
pub open spec fn in_binade(n: nat, d: nat, e: int) -> bool {
    let step = d * pow2((e + unit_bits()) as nat);
    -unit_bits() <= e && 0x10_0000_0000_0000 * step <= n * one() < 0x20_0000_0000_0000 * step
}

/// The double-precision number nearest to `n / d`, ties to even.
pub open spec fn nearest(n: nat, d: nat) -> Double {
    if n == 0 {
        Double { mant: 0, exp: 0 }
    } else {
        let e = choose|e: int| in_binade(n, d, e);
        Double {
            mant: half_even(n * one(), d * pow2((e + unit_bits()) as nat)) as u64,
            exp: e as i32,
        }
    }
}

/// The double-precision number nearest to an integer.
pub open spec fn int_double(n: nat) -> Double {
    nearest(n, 1)
}

/// The double-precision product.
pub open spec fn product(a: Double, b: Double) -> Double {
    nearest(a.units() * b.units(), one() * one())
}

/// The double-precision quotient.
pub open spec fn quotient(a: Double, b: Double) -> Double {
    nearest(a.units(), b.units())
}

/// The integer part.
pub open spec fn whole(a: Double) -> nat {
    a.units() / one()
}

/// The nearest integer, half rounded up.
pub open spec fn rounded(a: Double) -> nat {
    (2 * a.units() + one()) / (2 * one())
}

/// The number in units of one tenth, the nearest one, ties to even.
pub open spec fn tenths(a: Double) -> nat {
    half_even(10 * a.units(), one())
}

/// The nearest integer, ties to even.
pub open spec fn nearest_int(a: Double) -> nat {
    half_even(a.units(), one())
}

// ---- lemmas ----

/// A common factor does not change the nearest integer to a quotient.
pub proof fn half_even_scales(x: nat, n: nat, d: nat)
    requires
        x > 0,
        d > 0,
    ensures
        x * d > 0,
        half_even(x * n, x * d) == half_even(n, d),
{
    lemma_div_multiples_vanish_quotient(x as int, n as int, d as int);
    lemma_truncate_middle(n as int, x as int, d as int);
    let r = n % d;
    assert((x * n) % (x * d) == x * r);
    assert(x * d > 0);
    assert(2 * (x * r) > x * d <==> 2 * r > d) by (nonlinear_arith)
        requires
            x > 0,
    ;
    assert(2 * (x * r) == x * d <==> 2 * r == d) by (nonlinear_arith)
        requires
            x > 0,
    ;
}

proof fn half_even_bounds(n: nat, d: nat)
    requires
        d > 0,
    ensures
        n / d <= half_even(n, d) <= n / d + 1,
{
}

proof fn binade_unique(n: nat, d: nat, e1: int, e2: int)
    requires
        in_binade(n, d, e1),
        in_binade(n, d, e2),
    ensures
        e1 == e2,
{
    binade_order(n, d, e1, e2);
    binade_order(n, d, e2, e1);
}

proof fn binade_order(n: nat, d: nat, e1: int, e2: int)
    requires
        in_binade(n, d, e1),
        in_binade(n, d, e2),
    ensures
        e1 >= e2,
{
    if e1 < e2 {
        let p1 = pow2((e1 + unit_bits()) as nat);
        let p2 = pow2((e2 + unit_bits()) as nat);
        lemma_pow2_unfold((e1 + 1 + unit_bits()) as nat);
        if e1 + 1 < e2 {
            lemma_pow2_strictly_increases((e1 + 1 + unit_bits()) as nat, (e2 + unit_bits()) as nat);
        }
        assert(2 * p1 <= p2);
        assert(0x20_0000_0000_0000 * (d * p1) <= 0x10_0000_0000_0000 * (d * p2))
            by (nonlinear_arith)
            requires
                2 * p1 <= p2,
        ;
    }
}

/// Whether `big_n / big_d` is `n / d` times two to the power `e`.
spec fn same_ratio(big_n: nat, big_d: nat, n: nat, d: nat, e: int) -> bool {
    -unit_bits() <= e && (big_n * one()) * d == n * (big_d * pow2((e + unit_bits()) as nat))
}

proof fn nearest_of_ratio(big_n: nat, big_d: nat, n: nat, d: nat, e: int)
    requires
        big_n > 0,
        big_d > 0,
        d > 0,
        same_ratio(big_n, big_d, n, d, e),
        0x10_0000_0000_0000 * d <= n < 0x20_0000_0000_0000 * d,
        -4000 <= e <= 4000,
    ensures
        nearest(big_n, big_d) == (Double { mant: half_even(n, d) as u64, exp: e as i32 }),
        half_even(n, d) <= 0x20_0000_0000_0000,
        nearest(big_n, big_d).units() * big_d <= 2 * (big_n * one()),
        d == 1 ==> nearest(big_n, big_d).units() * big_d == big_n * one(),
{
    let a = big_n * one();
    let p = pow2((e + unit_bits()) as nat);
    let b = big_d * p;
    lemma_pow2_pos((e + unit_bits()) as nat);
    assert(b > 0) by (nonlinear_arith)
        requires
            big_d > 0,
            p > 0,
            b == big_d * p,
    ;
    assert(0x10_0000_0000_0000 * b <= a) by (nonlinear_arith)
        requires
            a * d == n * b,
            0x10_0000_0000_0000 * d <= n,
            d > 0,
            b > 0,
    ;
    assert(a < 0x20_0000_0000_0000 * b) by (nonlinear_arith)
        requires
            a * d == n * b,
            n < 0x20_0000_0000_0000 * d,
            d > 0,
            b > 0,
    ;
    assert(in_binade(big_n, big_d, e));
    let chosen = choose|c: int| in_binade(big_n, big_d, c);
    binade_unique(big_n, big_d, e, chosen);
    half_even_scales(d, a, b);
    half_even_scales(b, n, d);
    assert(d * a == b * n) by (nonlinear_arith)
        requires
            a * d == n * b,
    ;
    assert(d * b == b * d) by (nonlinear_arith);
    assert(half_even(a, b) == half_even(n, d));
    half_even_bounds(n, d);
    assert(n / d < 0x20_0000_0000_0000) by (nonlinear_arith)
        requires
            n < 0x20_0000_0000_0000 * d,
            d > 0,
    ;
    let m = half_even(n, d);
    assert((m * p) * big_d == m * b) by (nonlinear_arith)
        requires
            b == big_d * p,
    ;
    assert(m * b <= 2 * a) by (nonlinear_arith)
        requires
            m <= n / d + 1,
            a * d == n * b,
            0x10_0000_0000_0000 * d <= n,
            d > 0,
            b > 0,
    {
        assert((n / d) * d <= n);
        assert(m * d <= n + d);
        assert(m * d <= 2 * n);
        assert((m * b) * d == (m * d) * b);
        assert((m * d) * b <= (2 * n) * b);
        assert((2 * n) * b == (2 * a) * d);
    }
    if d == 1 {
        assert(n / 1 == n && n % 1 == 0) by (nonlinear_arith);
        assert(m == n);
        assert(a * 1 == a) by (nonlinear_arith);
    }
}

proof fn ratio_halved(big_n: nat, big_d: nat, n: nat, d: nat, e: int)
    requires
        same_ratio(big_n, big_d, n, d, e),
        e > -unit_bits(),
    ensures
        same_ratio(big_n, big_d, 2 * n, d, e - 1),
{
    lemma_pow2_unfold((e + unit_bits()) as nat);
    let q = pow2((e - 1 + unit_bits()) as nat);
    assert(n * (big_d * (2 * q)) == (2 * n) * (big_d * q)) by (nonlinear_arith);
}

proof fn ratio_doubled(big_n: nat, big_d: nat, n: nat, d: nat, e: int)
    requires
        same_ratio(big_n, big_d, n, d, e),
    ensures
        same_ratio(big_n, big_d, n, 2 * d, e + 1),
{
    lemma_pow2_unfold((e + 1 + unit_bits()) as nat);
    let q = pow2((e + unit_bits()) as nat);
    let a = big_n * one();
    assert(a * (2 * d) == 2 * (a * d)) by (nonlinear_arith);
    assert(n * (big_d * (2 * q)) == 2 * (n * (big_d * q))) by (nonlinear_arith);
}

proof fn power_bound(k: nat, n: nat)
    requires
        pow2(k) <= n,
        n < 0x20_0000_0000_0000_0000_0000_0000_0000,
    ensures
        k < 117,
{
    if k >= 117 {
        lemma2_to64();
        lemma2_to64_rest();
        lemma_pow2_adds(64, 53);
        assert(pow2(117) == 0x20_0000_0000_0000_0000_0000_0000_0000) by {
            assert(0x1_0000_0000_0000_0000nat * 0x20_0000_0000_0000nat
                == 0x20_0000_0000_0000_0000_0000_0000_0000nat);
        }
        if k > 117 {
            lemma_pow2_strictly_increases(117, k);
        }
    }
}

// ---- rounding ----

/// The double-precision number nearest to `n / d` times two to the power `e`.
fn round_ratio(
    n0: u128,
    d0: u128,
    e0: i32,
    Ghost(big_n): Ghost<nat>,
    Ghost(big_d): Ghost<nat>,
) -> (r: Double)
    requires
        0 < n0 < 0x800_0000_0000_0000_0000_0000_0000,
        0 < d0 <= 0x1_0000_0000_0000_0000,
        -3800 <= e0 <= 3800,
        big_n > 0,
        big_d > 0,
        same_ratio(big_n, big_d, n0 as nat, d0 as nat, e0 as int),
    ensures
        r == nearest(big_n, big_d),
        0 < r.mant <= 0x20_0000_0000_0000,
        e0 - 117 <= r.exp <= e0 + 117,
        r.units() * big_d <= 2 * (big_n * one()),
        d0 == 1 && n0 < 0x20_0000_0000_0000 ==> r.units() * big_d == big_n * one(),
{
    let mut n = n0;
    let mut d = d0;
    let mut e = e0;
    let ghost mut k: nat = 0;
    proof {
        lemma2_to64();
    }
    while n < d * 0x10_0000_0000_0000
        invariant
            d == d0,
            0 < d <= 0x1_0000_0000_0000_0000,
            -3800 <= e0 <= 3800,
            e == e0 - k,
            pow2(k) <= n,
            0 < n < 0x20_0000_0000_0000_0000_0000_0000_0000,
            k < 117,
            n0 < 0x20_0000_0000_0000 && d0 == 1 ==> n < 0x20_0000_0000_0000,
            same_ratio(big_n, big_d, n as nat, d as nat, e as int),
        decreases 117 - k,
    {
        proof {
            ratio_halved(big_n, big_d, n as nat, d as nat, e as int);
            lemma_pow2_unfold(k + 1);
            power_bound(k + 1, (2 * n) as nat);
            k = k + 1;
        }
        n = 2 * n;
        e = e - 1;
    }
    let ghost mut j: nat = 0;
    let ghost low = e as int;
    while n >= d * 0x20_0000_0000_0000
        invariant
            0 < d,
            d * 0x10_0000_0000_0000 <= n < 0x20_0000_0000_0000_0000_0000_0000_0000,
            e == low + j,
            pow2(j) <= d,
            j < 117,
            n0 < 0x20_0000_0000_0000 && d0 == 1 ==> n < 0x20_0000_0000_0000 && d == 1,
            e0 - 117 <= low <= e0,
            -3800 <= e0 <= 3800,
            same_ratio(big_n, big_d, n as nat, d as nat, e as int),
        decreases n - d,
    {
        proof {
            ratio_doubled(big_n, big_d, n as nat, d as nat, e as int);
            lemma_pow2_unfold(j + 1);
            power_bound(j + 1, (2 * d) as nat);
            j = j + 1;
        }
        d = 2 * d;
        e = e + 1;
    }
    proof {
        nearest_of_ratio(big_n, big_d, n as nat, d as nat, e as int);
    }
    let q = n / d;
    let rest = n % d;
    assert(q < 0x20_0000_0000_0000) by (nonlinear_arith)
        requires
            n < d * 0x20_0000_0000_0000,
            d > 0,
            q == n / d,
    ;
    assert(q > 0) by (nonlinear_arith)
        requires
            d * 0x10_0000_0000_0000 <= n,
            d > 0,
            q == n / d,
    ;
    let mant: u64 = if 2 * rest > d || (2 * rest == d && q % 2 == 1) {
        q as u64 + 1
    } else {
        q as u64
    };
    Double { mant, exp: e }
}

/// The double-precision number nearest to an integer.
pub fn of_int(n: u64) -> (r: Double)
    ensures
        r == int_double(n as nat),
        r.within(117),
        r.units() <= 2 * n * one(),
        n < 0x20_0000_0000_0000 ==> r.units() == n * one(),
        n > 0 ==> r.mant > 0,
{
    if n == 0 {
        proof {
            units_zero(Double { mant: 0, exp: 0 });
        }
        assert(2 * n * one() == 0 && n * one() == 0) by (nonlinear_arith)
            requires
                n == 0,
        ;
        return Double { mant: 0, exp: 0 };
    }
    assert(same_ratio(n as nat, 1, n as nat, 1, 0)) by (nonlinear_arith);
    let r = round_ratio(n as u128, 1, 0, Ghost(n as nat), Ghost(1));
    assert(2 * (n as nat * one()) == 2 * n * one()) by (nonlinear_arith);
    r
}

proof fn units_zero(a: Double)
    requires
        a.mant == 0,
    ensures
        a.units() == 0,
{
    let p = pow2((a.exp + unit_bits()) as nat);
    assert(0nat * p == 0) by (nonlinear_arith);
}

proof fn units_pos(a: Double)
    requires
        a.mant > 0,
    ensures
        a.units() > 0,
{
    lemma_pow2_pos((a.exp + unit_bits()) as nat);
    let p = pow2((a.exp + unit_bits()) as nat);
    assert(a.mant as nat * p > 0) by (nonlinear_arith)
        requires
            a.mant > 0,
            p > 0,
    ;
}

/// The double-precision quotient.
pub fn over(a: Double, b: Double) -> (r: Double)
    requires
        a.within(1800),
        b.within(1800),
        b.mant > 0,
    ensures
        r == quotient(a, b),
        r.mant <= 0x20_0000_0000_0000,
        a.mant > 0 ==> a.exp - b.exp - 117 <= r.exp <= a.exp - b.exp + 117,
        a.mant == 0 ==> r.exp == 0,
        a.mant > 0 ==> r.mant > 0,
        r.units() * b.units() <= 2 * (a.units() * one()),
{
    if a.mant == 0 {
        proof {
            units_zero(a);
            units_zero(Double { mant: 0, exp: 0 });
        }
        assert(0 * b.units() == 0 && 0 * one() == 0) by (nonlinear_arith);
        return Double { mant: 0, exp: 0 };
    }
    proof {
        units_pos(a);
        units_pos(b);
        let e = a.exp - b.exp;
        let pa = pow2((a.exp + unit_bits()) as nat);
        let pb = pow2((b.exp + unit_bits()) as nat);
        let pe = pow2((e + unit_bits()) as nat);
        lemma_pow2_adds((b.exp + unit_bits()) as nat, (e + unit_bits()) as nat);
        lemma_pow2_adds((a.exp + unit_bits()) as nat, unit_bits());
        assert(pa * one() == pb * pe);
        let m = a.mant as nat;
        let k = b.mant as nat;
        assert(((m * pa) * one()) * k == m * ((k * pb) * pe)) by (nonlinear_arith)
            requires
                pa * one() == pb * pe,
        ;
    }
    round_ratio(a.mant as u128, b.mant as u128, a.exp - b.exp, Ghost(a.units()), Ghost(b.units()))
}

/// The double-precision product.
pub fn times(a: Double, b: Double) -> (r: Double)
    requires
        a.within(1800),
        b.within(1800),
    ensures
        r == product(a, b),
        r.mant <= 0x20_0000_0000_0000,
        a.mant > 0 && b.mant > 0 ==> a.exp + b.exp - 117 <= r.exp <= a.exp + b.exp + 117,
        a.mant == 0 || b.mant == 0 ==> r.exp == 0,
        a.mant > 0 && b.mant > 0 ==> r.mant > 0,
        r.units() * (one() * one()) <= 2 * (a.units() * b.units() * one()),
{
    if a.mant == 0 || b.mant == 0 {
        proof {
            if a.mant == 0 {
                units_zero(a);
            } else {
                units_zero(b);
            }
            units_zero(Double { mant: 0, exp: 0 });
            assert(0 * (one() * one()) == 0) by (nonlinear_arith);
        }
        assert(a.units() * b.units() == 0) by (nonlinear_arith)
            requires
                a.units() == 0 || b.units() == 0,
        ;
        return Double { mant: 0, exp: 0 };
    }
    assert(a.mant as u128 * b.mant as u128 <= 0x20_0000_0000_0000u128 * 0x20_0000_0000_0000u128 && 0
        < a.mant as u128 * b.mant as u128) by (nonlinear_arith)
        requires
            0 < a.mant <= 0x20_0000_0000_0000,
            0 < b.mant <= 0x20_0000_0000_0000,
    ;
    let m: u128 = a.mant as u128 * b.mant as u128;
    proof {
        units_pos(a);
        units_pos(b);
        assert(a.units() * b.units() > 0) by (nonlinear_arith)
            requires
                a.units() > 0,
                b.units() > 0,
        ;
        lemma_pow2_pos(unit_bits());
        assert(one() * one() > 0) by (nonlinear_arith)
            requires
                one() > 0,
        ;
        let pa = pow2((a.exp + unit_bits()) as nat);
        let pb = pow2((b.exp + unit_bits()) as nat);
        let e = a.exp + b.exp;
        let pe = pow2((e + unit_bits()) as nat);
        lemma_pow2_adds((a.exp + unit_bits()) as nat, (b.exp + unit_bits()) as nat);
        lemma_pow2_adds((e + unit_bits()) as nat, unit_bits());
        assert(pa * pb == pe * one());
        let x = a.mant as nat;
        let y = b.mant as nat;
        let o = one();
        assert((((x * pa) * (y * pb)) * o) * 1 == (x * y) * ((o * o) * pe)) by (nonlinear_arith)
            requires
                pa * pb == pe * o,
        ;
        assert(m as nat == x * y);
    }
    round_ratio(m, 1, a.exp + b.exp, Ghost(a.units() * b.units()), Ghost(one() * one()))
}

// ---- reading a number ----

proof fn units_of_large(a: Double)
    requires
        a.exp >= 0,
    ensures
        a.units() == (a.mant as nat * pow2(a.exp as nat)) * one(),
{
    lemma_pow2_adds(a.exp as nat, unit_bits());
    let m = a.mant as nat;
    let p = pow2(a.exp as nat);
    assert(m * (p * one()) == (m * p) * one()) by (nonlinear_arith);
}

/// With a negative exponent the number is `mant` over a power of two: both sides are
/// multiplied by the same factor.
proof fn units_of_small(a: Double) -> (x: nat)
    requires
        -1800 <= a.exp < 0,
    ensures
        x > 0,
        a.units() == x * a.mant as nat,
        one() == x * pow2((-a.exp) as nat),
{
    let x = pow2((a.exp + unit_bits()) as nat);
    lemma_pow2_pos((a.exp + unit_bits()) as nat);
    lemma_pow2_adds((a.exp + unit_bits()) as nat, (-a.exp) as nat);
    assert(a.mant as nat * x == x * a.mant as nat) by (nonlinear_arith);
    x
}

/// `mant` times two to the power `k`, or a number above `limit` where that is greater.
fn shifted(mant: u64, k: i32, limit: u128) -> (r: u128)
    requires
        k >= 0,
        limit <= 0x1_0000_0000_0000_0000_0000_0000_0000,
    ensures
        r == mant * pow2(k as nat) || (r > limit && mant * pow2(k as nat) > limit),
        r <= 0x2_0000_0000_0000_0000_0000_0000_0000,
{
    let mut v: u128 = mant as u128;
    let mut i: i32 = 0;
    proof {
        lemma2_to64();
        assert(mant * pow2(0) == mant);
    }
    while i < k
        invariant
            0 <= i <= k,
            v == mant * pow2(i as nat),
            limit <= 0x1_0000_0000_0000_0000_0000_0000_0000,
            v <= 0x2_0000_0000_0000_0000_0000_0000_0000,
        decreases k - i,
    {
        if v > limit {
            proof {
                lemma_pow2_strictly_increases(i as nat, k as nat);
                let p = pow2(i as nat);
                let q = pow2(k as nat);
                assert(mant * p <= mant * q) by (nonlinear_arith)
                    requires
                        p <= q,
                        mant >= 0,
                ;
            }
            return v;
        }
        proof {
            lemma_pow2_unfold((i + 1) as nat);
            let p = pow2(i as nat);
            assert(mant * (2 * p) == 2 * (mant * p)) by (nonlinear_arith);
        }
        v = 2 * v;
        i = i + 1;
    }
    v
}

fn power_of_two(k: i32) -> (r: u128)
    requires
        0 <= k <= 120,
    ensures
        r == pow2(k as nat),
        1 <= r <= 0x100_0000_0000_0000_0000_0000_0000_0000,
{
    let mut v: u128 = 1;
    let mut i: i32 = 0;
    proof {
        lemma2_to64();
        lemma_pow2_adds(60, 60);
        lemma2_to64_rest();
    }
    while i < k
        invariant
            0 <= i <= k <= 120,
            v == pow2(i as nat),
            pow2(120) == 0x100_0000_0000_0000_0000_0000_0000_0000,
        decreases k - i,
    {
        proof {
            lemma_pow2_unfold((i + 1) as nat);
            if i + 1 < 120 {
                lemma_pow2_strictly_increases((i + 1) as nat, 120);
            }
        }
        v = 2 * v;
        i = i + 1;
    }
    proof {
        lemma_pow2_pos(k as nat);
        if k < 120 {
            lemma_pow2_strictly_increases(k as nat, 120);
        }
    }
    v
}

/// Twenty times `mant` is less than two to the power `k`.
proof fn far_below(mant: nat, k: nat)
    requires
        mant <= 0x20_0000_0000_0000,
        k > 120,
    ensures
        20 * mant < pow2(k),
{
    lemma_pow2_strictly_increases(120, k);
    lemma2_to64();
    lemma2_to64_rest();
    lemma_pow2_strictly_increases(60, 120);
}

/// The integer part, at most `limit`.
pub fn to_whole(a: Double, limit: u64) -> (r: u64)
    requires
        a.within(1800),
    ensures
        r == if whole(a) <= limit {
            whole(a)
        } else {
            limit as nat
        },
{
    if a.exp >= 0 {
        let v = shifted(a.mant, a.exp, limit as u128);
        proof {
            units_of_large(a);
            lemma_pow2_pos(unit_bits());
            let m = a.mant as nat * pow2(a.exp as nat);
            assert((m * one()) / one() == m) by (nonlinear_arith)
                requires
                    one() > 0,
            ;
        }
        if v <= limit as u128 {
            v as u64
        } else {
            limit
        }
    } else {
        let ghost x = units_of_small(a);
        proof {
            lemma_pow2_pos((-a.exp) as nat);
            lemma_div_multiples_vanish_quotient(
                x as int,
                a.mant as int,
                pow2((-a.exp) as nat) as int,
            );
        }
        if a.exp < -120 {
            proof {
                far_below(a.mant as nat, (-a.exp) as nat);
                let p = pow2((-a.exp) as nat);
                assert(a.mant as nat / p == 0) by (nonlinear_arith)
                    requires
                        0 <= a.mant < p,
                ;
            }
            return 0;
        }
        let d = power_of_two(-a.exp);
        let v = a.mant as u128 / d;
        assert(v <= a.mant) by (nonlinear_arith)
            requires
                v == a.mant as u128 / d,
                d >= 1,
        ;
        if v <= limit as u128 {
            v as u64
        } else {
            limit
        }
    }
}

/// The nearest integer, half rounded up, at most `limit`.
pub fn to_rounded(a: Double, limit: u64) -> (r: u64)
    requires
        a.within(1800),
    ensures
        r == if rounded(a) <= limit {
            rounded(a)
        } else {
            limit as nat
        },
{
    if a.exp >= 0 {
        let v = shifted(a.mant, a.exp, limit as u128);
        proof {
            units_of_large(a);
            lemma_pow2_pos(unit_bits());
            let m = a.mant as nat * pow2(a.exp as nat);
            let o = one();
            assert((2 * (m * o) + o) / (2 * o) == m) by (nonlinear_arith)
                requires
                    o > 0,
            ;
        }
        if v <= limit as u128 {
            v as u64
        } else {
            limit
        }
    } else {
        let ghost x = units_of_small(a);
        proof {
            let p = pow2((-a.exp) as nat);
            lemma_pow2_pos((-a.exp) as nat);
            lemma_div_multiples_vanish_quotient(x as int, 2 * a.mant + p as int, 2 * p as int);
            let m = a.mant as nat;
            assert(x * (2 * m + p) == 2 * (x * m) + x * p) by (nonlinear_arith);
            assert(x * (2 * p) == 2 * (x * p)) by (nonlinear_arith);
        }
        if a.exp < -120 {
            proof {
                far_below(a.mant as nat, (-a.exp) as nat);
                let p = pow2((-a.exp) as nat);
                let m = a.mant as nat;
                assert((2 * m + p) / (2 * p) == 0) by (nonlinear_arith)
                    requires
                        0 <= m,
                        20 * m < p,
                ;
            }
            return 0;
        }
        let d = power_of_two(-a.exp);
        let v = (2 * (a.mant as u128) + d) / (2 * d);
        assert(v <= a.mant + 1) by (nonlinear_arith)
            requires
                v == (2 * (a.mant as u128) + d) / (2 * d),
                d >= 1,
        ;
        if v <= limit as u128 {
            v as u64
        } else {
            limit
        }
    }
}

fn half_even_of(n: u128, d: u128) -> (r: u128)
    requires
        0 < d <= 0x100_0000_0000_0000_0000_0000_0000_0000,
        n < 0x1000_0000_0000_0000_0000_0000_0000_0000,
    ensures
        r == half_even(n as nat, d as nat),
{
    let q = n / d;
    let rest = n % d;
    assert(q <= n) by (nonlinear_arith)
        requires
            q == n / d,
            d >= 1,
    ;
    if 2 * rest > d || (2 * rest == d && q % 2 == 1) {
        q + 1
    } else {
        q
    }
}

/// Ten times the number, or the number itself, as the nearest integer; ties to even.
fn to_scaled(a: Double, times: u128) -> (r: u128)
    requires
        a.within(1800),
        times == 1 || times == 10,
        whole(a) < 0x40_0000_0000_0000_0000,
    ensures
        r == half_even(times as nat * a.units(), one()),
{
    if a.exp >= 0 {
        let v = shifted(a.mant, a.exp, 0x40_0000_0000_0000_0000);
        let ghost m = a.mant as nat * pow2(a.exp as nat);
        let ghost t = times as nat;
        let ghost o = one();
        proof {
            units_of_large(a);
            lemma_pow2_pos(unit_bits());
            assert((m * o) / o == m) by (nonlinear_arith)
                requires
                    o > 0,
            ;
            half_even_scales(o, t * m, 1);
            assert(t * (m * o) == o * (t * m)) by (nonlinear_arith);
            assert(half_even(t * m, 1) == t * m);
            assert(t * m <= 10 * m) by (nonlinear_arith)
                requires
                    t <= 10,
            ;
            assert(v == m);
        }
        times * v
    } else {
        let ghost x = units_of_small(a);
        let ghost m = a.mant as nat;
        let ghost t = times as nat;
        proof {
            let p = pow2((-a.exp) as nat);
            lemma_pow2_pos((-a.exp) as nat);
            half_even_scales(x, t * m, p);
            assert(x * (t * m) == t * (x * m)) by (nonlinear_arith);
        }
        if a.exp < -120 {
            proof {
                let p = pow2((-a.exp) as nat);
                far_below(m, (-a.exp) as nat);
                let n = t * m;
                assert(2 * n < p) by (nonlinear_arith)
                    requires
                        t <= 10,
                        20 * m < p,
                        n == t * m,
                ;
                assert(n / p == 0 && n % p == n) by (nonlinear_arith)
                    requires
                        0 <= n < p,
                ;
            }
            return 0;
        }
        let d = power_of_two(-a.exp);
        half_even_of(times * a.mant as u128, d)
    }
}

/// The number in units of one tenth, the nearest one, ties to even.
pub fn to_tenths(a: Double) -> (r: u128)
    requires
        a.within(1800),
        whole(a) < 0x40_0000_0000_0000_0000,
    ensures
        r == tenths(a),
{
    to_scaled(a, 10)
}

/// The nearest integer, ties to even.
pub fn to_nearest(a: Double) -> (r: u128)
    requires
        a.within(1800),
        whole(a) < 0x40_0000_0000_0000_0000,
    ensures
        r == nearest_int(a),
{
    assert(1 * a.units() == a.units());
    to_scaled(a, 1)
}

/// Appends the nearest integer, ties to even, in decimal digits.
pub fn push_nearest(out: &mut String, a: Double)
    requires
        a.within(1800),
    ensures
        final(out)@ == old(out)@ + decimal(nearest_int(a)),
{
    if a.exp >= 0 && a.mant > 0 {
        let ghost m = a.mant as nat * pow2(a.exp as nat);
        proof {
            units_of_large(a);
            lemma_pow2_pos(unit_bits());
            let o = one();
            half_even_scales(o, m, 1);
            assert(m * o == o * m) by (nonlinear_arith);
            assert(m / 1 == m && m % 1 == 0) by (nonlinear_arith);
        }
        push_scaled(out, a.mant, a.exp as u32);
    } else {
        proof {
            lemma_pow2_pos(unit_bits());
            let o = one();
            if a.mant == 0 {
                units_zero(a);
                assert(0nat / o == 0) by (nonlinear_arith)
                    requires
                        o > 0,
                ;
            } else {
                let x = units_of_small(a);
                let p = pow2((-a.exp) as nat);
                lemma_pow2_pos((-a.exp) as nat);
                lemma_div_multiples_vanish_quotient(x as int, a.mant as int, p as int);
                assert(a.mant as nat / p <= a.mant) by (nonlinear_arith)
                    requires
                        p >= 1,
                ;
            }
        }
        push_decimal(out, to_nearest(a));
    }
}

fn shifted_at_least(x: u64, k: i32, y: u64) -> (r: bool)
    requires
        0 <= k,
        y <= 0x20_0000_0000_0000,
    ensures
        r == (x * pow2(k as nat) >= y),
{
    let v = shifted(x, k, 0x20_0000_0000_0000);
    v >= y as u128
}

fn shifted_at_most(x: u64, k: i32, y: u64) -> (r: bool)
    requires
        0 <= k,
        y <= 0x20_0000_0000_0000,
    ensures
        r == (x * pow2(k as nat) <= y),
{
    let v = shifted(x, k, 0x20_0000_0000_0000);
    v <= y as u128
}

/// Whether `a` is at least `b`.
pub fn at_least(a: Double, b: Double) -> (r: bool)
    requires
        a.within(1800),
        b.within(1800),
    ensures
        r == (a.units() >= b.units()),
{
    let ghost pa = pow2((a.exp + unit_bits()) as nat);
    let ghost pb = pow2((b.exp + unit_bits()) as nat);
    proof {
        lemma_pow2_pos((a.exp + unit_bits()) as nat);
        lemma_pow2_pos((b.exp + unit_bits()) as nat);
    }
    if a.exp >= b.exp {
        proof {
            let k = (a.exp - b.exp) as nat;
            lemma_pow2_adds(k, (b.exp + unit_bits()) as nat);
            let p = pow2(k);
            let x = a.mant as nat;
            let y = b.mant as nat;
            assert(x * (p * pb) >= y * pb <==> x * p >= y) by (nonlinear_arith)
                requires
                    pb > 0,
            ;
        }
        shifted_at_least(a.mant, a.exp - b.exp, b.mant)
    } else {
        proof {
            let k = (b.exp - a.exp) as nat;
            lemma_pow2_adds(k, (a.exp + unit_bits()) as nat);
            let p = pow2(k);
            let x = a.mant as nat;
            let y = b.mant as nat;
            assert(x * pa >= y * (p * pa) <==> y * p <= x) by (nonlinear_arith)
                requires
                    pa > 0,
            ;
        }
        shifted_at_most(b.mant, b.exp - a.exp, a.mant)
    }
}

/// The number one is exact.
pub proof fn one_is_exact()
    ensures
        int_double(1).units() == one(),
{
    int_is_exact(1);
}

/// Eight tenths are less than one, in double precision too.
pub proof fn eight_tenths_below_one()
    ensures
        quotient(int_double(8), int_double(10)).units() <= one(),
{
    lemma2_to64();
    lemma2_to64_rest();
    lemma_pow2_adds(53, 3947);
    lemma_pow2_pos(3947);
    let x = pow2(3947);
    int_is_exact(8);
    int_is_exact(10);
    let o = one();
    let (a, b) = (8 * o, 10 * o);
    assert(same_ratio(a, b, 8 * 0x20_0000_0000_0000, 10, -53)) by {
        assert((a * o) * 10 == (8 * 0x20_0000_0000_0000) * (b * x)) by (nonlinear_arith)
            requires
                o == 0x20_0000_0000_0000 * x,
                a == 8 * o,
                b == 10 * o,
        ;
    }
    nearest_of_ratio(a, b, 8 * 0x20_0000_0000_0000, 10, -53);
    let m = half_even(8 * 0x20_0000_0000_0000, 10);
    assert(m as u64 * x <= 0x20_0000_0000_0000 * x) by (nonlinear_arith)
        requires
            m <= 0x20_0000_0000_0000,
            m as u64 == m,
    ;
}

// ---- exact numbers ----

/// An integer below two to the 53rd is exact, with a significand of 53 bits.
pub proof fn int_is_exact(n: nat)
    requires
        0 < n < 0x20_0000_0000_0000,
    ensures
        int_double(n).units() == n * one(),
        0x10_0000_0000_0000 <= int_double(n).mant < 0x20_0000_0000_0000,
        -53 <= int_double(n).exp <= 0,
{
    lemma2_to64();
    assert(same_ratio(n, 1, n, 1, 0)) by {
        assert((n * one()) * 1 == n * (1 * one())) by (nonlinear_arith);
    }
    int_found(n, n, 0);
}

proof fn int_found(n: nat, m: nat, k: nat)
    requires
        0 < n,
        0 < m < 0x20_0000_0000_0000,
        pow2(k) <= m,
        k <= 53,
        same_ratio(n, 1, m, 1, -k),
    ensures
        int_double(n).units() == n * one(),
        0x10_0000_0000_0000 <= int_double(n).mant < 0x20_0000_0000_0000,
        -53 <= int_double(n).exp <= 0,
    decreases 0x20_0000_0000_0000 - m,
{
    lemma2_to64();
    lemma2_to64_rest();
    if k == 53 {
        assert(pow2(53) == 0x20_0000_0000_0000);
    }
    if m >= 0x10_0000_0000_0000 {
        nearest_of_ratio(n, 1, m, 1, -k);
        assert(m / 1 == m && m % 1 == 0) by (nonlinear_arith);
        let u = int_double(n).units();
        assert(u * 1 == u) by (nonlinear_arith);
    } else {
        ratio_halved(n, 1, m, 1, -k);
        lemma_pow2_unfold(k + 1);
        int_found(n, 2 * m, k + 1);
    }
}

/// A number with a significand of 53 bits divided by 1024 is exact.
pub proof fn part_of_1024_is_exact(a: Double)
    requires
        0x10_0000_0000_0000 <= a.mant < 0x20_0000_0000_0000,
        -1000 <= a.exp <= 1000,
    ensures
        quotient(a, int_double(1024)) == (Double { mant: a.mant, exp: (a.exp - 10) as i32 }),
        quotient(a, int_double(1024)).units() * 1024 == a.units(),
{
    let b = int_double(1024);
    let m = a.mant as nat;
    int_is_exact(1024);
    lemma2_to64();
    lemma_pow2_adds(10, (a.exp - 10 + unit_bits()) as nat);
    let p = pow2((a.exp + unit_bits()) as nat);
    let q = pow2((a.exp - 10 + unit_bits()) as nat);
    let o = one();
    assert(p == 1024 * q);
    lemma_pow2_pos(unit_bits());
    units_pos(a);
    assert(1024 * o > 0) by (nonlinear_arith)
        requires
            o > 0,
    ;
    assert(((m * (1024 * q)) * o) * 1 == m * ((1024 * o) * q)) by (nonlinear_arith);
    nearest_of_ratio(a.units(), b.units(), m, 1, a.exp - 10);
    assert(m / 1 == m && m % 1 == 0) by (nonlinear_arith);
    assert((m * q) * 1024 == m * (1024 * q)) by (nonlinear_arith);
}

/// None of anything is none.
pub proof fn part_of_nothing(b: Double)
    ensures
        whole(product(int_double(0), b)) == 0,
{
    let z = Double { mant: 0, exp: 0 };
    units_zero(z);
    let u = b.units();
    assert(0nat * u == 0) by (nonlinear_arith);
    lemma_pow2_pos(unit_bits());
    let o = one();
    assert(0nat / o == 0) by (nonlinear_arith)
        requires
            o > 0,
    ;
}

/// All of an integer below two to the 53rd is that integer.
pub proof fn whole_part(n: nat, part: nat)
    requires
        n < 0x20_0000_0000_0000,
        0 < part < 0x20_0000_0000_0000,
    ensures
        whole(product(int_double(n), quotient(int_double(part), int_double(part)))) == n,
{
    let a = int_double(part);
    let u = a.units();
    let o = one();
    let f = quotient(a, a);
    let x = pow2(3948);
    int_is_exact(part);
    units_pos(a);
    lemma_pow2_pos(unit_bits());
    lemma2_to64();
    lemma2_to64_rest();
    lemma_pow2_adds(52, 3948);
    assert((u * o) * 1 == 0x10_0000_0000_0000 * (u * x)) by (nonlinear_arith)
        requires
            o == 0x10_0000_0000_0000 * x,
    ;
    nearest_of_ratio(u, u, 0x10_0000_0000_0000, 1, -52);
    assert(f == (Double { mant: 0x10_0000_0000_0000, exp: -52i32 }));
    assert(f.units() == o);
    if n == 0 {
        part_of_nothing(f);
    } else {
        let l = int_double(n);
        int_is_exact(n);
        units_pos(l);
        let m = l.mant as nat;
        let p = pow2((l.exp + unit_bits()) as nat);
        assert(l.units() * o > 0 && o * o > 0) by (nonlinear_arith)
            requires
                l.units() > 0,
                o > 0,
        ;
        assert((((m * p) * o) * o) * 1 == m * ((o * o) * p)) by (nonlinear_arith);
        nearest_of_ratio(l.units() * o, o * o, m, 1, l.exp as int);
        assert(m / 1 == m && m % 1 == 0) by (nonlinear_arith);
        assert(product(l, f) == l);
        assert((n * o) / o == n) by (nonlinear_arith)
            requires
                o > 0,
        ;
    }
}

/// The quotient of two integers below two to the 53rd is at least one just when the first
/// is at least the second.
pub proof fn quotient_reaches_one(a: nat, b: nat)
    requires
        a < 0x20_0000_0000_0000,
        0 < b < 0x20_0000_0000_0000,
    ensures
        quotient(int_double(a), int_double(b)).units() >= one() <==> a >= b,
{
    let o = one();
    lemma_pow2_pos(unit_bits());
    int_is_exact(b);
    if a == 0 {
        units_zero(Double { mant: 0, exp: 0 });
    } else {
        int_is_exact(a);
        let (x, y) = (a * o, b * o);
        assert(x > 0 && y > 0) by (nonlinear_arith)
            requires
                a > 0,
                b > 0,
                o > 0,
                x == a * o,
                y == b * o,
        ;
        assert((x * o) * b == a * (y * o)) by (nonlinear_arith)
            requires
                x == a * o,
                y == b * o,
        ;
        lemma2_to64();
        lemma2_to64_rest();
        lemma_pow2_adds(52, 53);
        assert(pow2(105) * a >= 0x10_0000_0000_0000 * b) by (nonlinear_arith)
            requires
                pow2(105) == 0x10_0000_0000_0000 * 0x20_0000_0000_0000,
                a >= 1,
                b <= 0x20_0000_0000_0000,
        ;
        assert(pow2(0) * a == a);
        quotient_found(x, y, a, b, 0, 105);
    }
}

proof fn quotient_found(x: nat, y: nat, a: nat, b: nat, k: nat, left: nat)
    requires
        x > 0,
        y > 0,
        0 < a,
        0 < b < 0x20_0000_0000_0000,
        k + left <= 105,
        same_ratio(x, y, pow2(k) * a, b, -k),
        pow2(k) * a < 0x20_0000_0000_0000 * b,
        pow2(left) * (pow2(k) * a) >= 0x10_0000_0000_0000 * b,
    ensures
        nearest(x, y).units() >= one() <==> a >= b,
    decreases left,
{
    let n = pow2(k) * a;
    lemma2_to64();
    lemma2_to64_rest();
    if n >= 0x10_0000_0000_0000 * b {
        nearest_of_ratio(x, y, n, b, -k);
        let m = half_even(n, b);
        let p = pow2((unit_bits() - k) as nat);
        lemma_pow2_adds(k, (unit_bits() - k) as nat);
        lemma_pow2_pos(k);
        lemma_pow2_pos((unit_bits() - k) as nat);
        half_even_bounds(n, b);
        let u = pow2(k);
        assert(m * p >= u * p <==> m >= u) by (nonlinear_arith)
            requires
                p > 0,
        ;
        if a >= b {
            assert(n / b >= u) by (nonlinear_arith)
                requires
                    n == u * a,
                    a >= b,
                    b > 0,
            ;
        } else {
            assert(u > 0x10_0000_0000_0000) by (nonlinear_arith)
                requires
                    u * a >= 0x10_0000_0000_0000 * b,
                    a < b,
                    u > 0,
            ;
            if k < 53 {
                if k < 52 {
                    lemma_pow2_strictly_increases(k, 52);
                }
            } else if k > 53 {
                lemma_pow2_strictly_increases(53, k);
            }
            assert(u >= 0x20_0000_0000_0000);
            assert(n + b < u * b) by (nonlinear_arith)
                requires
                    n == u * a,
                    a + 1 <= b,
                    b < 0x20_0000_0000_0000,
                    u >= 0x20_0000_0000_0000,
            ;
            assert(n / b + 1 < u) by (nonlinear_arith)
                requires
                    n + b < u * b,
                    b > 0,
            ;
        }
    } else {
        if left == 0 {
            assert(pow2(0) * n == n);
        }
        ratio_halved(x, y, n, b, -k);
        lemma_pow2_unfold(k + 1);
        lemma_pow2_unfold(left);
        let (u, l) = (pow2(k), pow2((left - 1) as nat));
        assert(2 * (u * a) == (2 * u) * a) by (nonlinear_arith);
        assert((2 * l) * (u * a) == l * ((2 * u) * a)) by (nonlinear_arith);
        quotient_found(x, y, a, b, k + 1, (left - 1) as nat);
    }
}

/// An integer times 1024 has the same significand.
pub proof fn times_1024_is_exact(n: nat)
    requires
        0 < n < 0x20_0000_0000_0000,
    ensures
        int_double(1024 * n).units() == (1024 * n) * one(),
        int_double(1024 * n) == (Double {
            mant: int_double(n).mant,
            exp: (int_double(n).exp + 10) as i32,
        }),
{
    let d = int_double(n);
    let m = d.mant as nat;
    int_is_exact(n);
    lemma2_to64();
    lemma_pow2_adds(10, (d.exp + unit_bits()) as nat);
    let p = pow2((d.exp + unit_bits()) as nat);
    let o = one();
    assert(((1024 * n) * o) * 1 == m * (1 * (1024 * p))) by (nonlinear_arith)
        requires
            m * p == n * o,
    ;
    nearest_of_ratio(1024 * n, 1, m, 1, d.exp + 10);
    assert(m / 1 == m && m % 1 == 0) by (nonlinear_arith);
    let u = int_double(1024 * n).units();
    assert(u * 1 == u) by (nonlinear_arith);
}

// ---- numbers by their bits ----

/// The bits of positive infinity.
pub const INFINITY_BITS: u64 = 0x7ff0_0000_0000_0000;

/// Whether the bits of a double-precision number are those of one above zero, infinity
/// among them.
pub open spec fn bits_positive(bits: u64) -> bool {
    0 < bits <= INFINITY_BITS
}

/// The number with the bits of a finite one that is not negative.
pub open spec fn bits_double(bits: u64) -> Double {
    let exponent = bits / 0x10_0000_0000_0000;
    let fraction = bits % 0x10_0000_0000_0000;
    if exponent == 0 {
        Double { mant: fraction, exp: -1074i32 }
    } else {
        Double { mant: (fraction + 0x10_0000_0000_0000) as u64, exp: (exponent - 1075) as i32 }
    }
}

/// The number with the bits of a finite one that is not negative.
pub fn of_bits(bits: u64) -> (r: Double)
    requires
        bits < INFINITY_BITS,
    ensures
        r == bits_double(bits),
        r.within(1074),
        bits > 0 ==> r.mant > 0,
{
    let exponent = bits / 0x10_0000_0000_0000;
    let fraction = bits % 0x10_0000_0000_0000;
    if exponent == 0 {
        Double { mant: fraction, exp: -1074 }
    } else {
        Double { mant: fraction + 0x10_0000_0000_0000, exp: exponent as i32 - 1075 }
    }
}

/// One times ten is ten, as a whole number.
pub proof fn all_of_ten_is_ten()
    ensures
        rounded(product(int_double(1), int_double(10))) == 10,
{
    let o = one();
    let (a, b) = (int_double(1), int_double(10));
    int_is_exact(1);
    int_is_exact(10);
    lemma_pow2_pos(unit_bits());
    let m = b.mant as nat;
    let p = pow2((b.exp + unit_bits()) as nat);
    units_pos(b);
    assert(a.units() == o) by (nonlinear_arith)
        requires
            a.units() == 1 * o,
    ;
    assert(o * b.units() > 0 && o * o > 0) by (nonlinear_arith)
        requires
            b.units() > 0,
            o > 0,
    ;
    assert(((o * (m * p)) * o) * 1 == m * ((o * o) * p)) by (nonlinear_arith);
    nearest_of_ratio(o * b.units(), o * o, m, 1, b.exp as int);
    assert(m / 1 == m && m % 1 == 0) by (nonlinear_arith);
    assert(product(a, b) == b);
    assert((2 * (10 * o) + o) / (2 * o) == 10) by (nonlinear_arith)
        requires
            o > 0,
    ;
}

// ---- how near the nearest numbers are ----

/// The nearest integer to a quotient is at most a half away from it.
pub proof fn nearest_integers_are_near(n: nat, d: nat)
    requires
        d > 0,
    ensures
        2 * (half_even(n, d) * d) <= 2 * n + d,
        2 * n <= 2 * (half_even(n, d) * d) + d,
{
    let (q, r) = (n / d, n % d);
    assert(n == q * d + r && 0 <= r < d) by (nonlinear_arith)
        requires
            q == n / d,
            r == n % d,
            d > 0,
    ;
    assert((q + 1) * d == q * d + d) by (nonlinear_arith);
}

proof fn binade_from(n: nat, d: nat, e: int) -> (r: int)
    requires
        d > 0,
        -unit_bits() <= e,
        0x10_0000_0000_0000 * (d * pow2((e + unit_bits()) as nat)) <= n * one(),
    ensures
        in_binade(n, d, r),
    decreases n * one() - d * pow2((e + unit_bits()) as nat),
{
    let p = pow2((e + unit_bits()) as nat);
    lemma_pow2_pos((e + unit_bits()) as nat);
    if n * one() < 0x20_0000_0000_0000 * (d * p) {
        e
    } else {
        lemma_pow2_unfold((e + 1 + unit_bits()) as nat);
        assert(d * (2 * p) == 2 * (d * p)) by (nonlinear_arith);
        assert(d * p > 0) by (nonlinear_arith)
            requires
                d > 0,
                p > 0,
        ;
        binade_from(n, d, e + 1)
    }
}

/// The double-precision number nearest to a quotient differs from it by at most one part in
/// two to the 53rd.
#[verifier::spinoff_prover]
pub proof fn nearest_numbers_are_near(n: nat, d: nat)
    requires
        d > 0,
        0x10_0000_0000_0000 * d <= n * one(),
        n < d * one(),
    ensures
        ({
            let u = nearest(n, d).units();
            &&& 0x20_0000_0000_0000 * (u * d) <= 0x20_0000_0000_0001 * (n * one())
            &&& 0x1f_ffff_ffff_ffff * (n * one()) <= 0x20_0000_0000_0000 * (u * d)
        }),
{
    let o = one();
    lemma2_to64();
    lemma_pow2_pos(unit_bits());
    assert((-unit_bits() + unit_bits()) as nat == 0);
    assert(d * pow2(0) == d) by (nonlinear_arith)
        requires
            pow2(0) == 1,
    ;
    let first = binade_from(n, d, -unit_bits());
    assert(in_binade(n, d, first));
    let e = choose|e: int| in_binade(n, d, e);
    let p = pow2((e + unit_bits()) as nat);
    lemma_pow2_pos((e + unit_bits()) as nat);
    let s = d * p;
    assert(s > 0) by (nonlinear_arith)
        requires
            d > 0,
            p > 0,
            s == d * p,
    ;
    if n == 0 {
        assert(0nat * o == 0) by (nonlinear_arith);
    }
    assert(e < 4000) by {
        if e >= 4000 {
            lemma_pow2_adds(unit_bits(), unit_bits());
            if e > 4000 {
                lemma_pow2_strictly_increases(2 * unit_bits(), (e + unit_bits()) as nat);
            }
            assert(p >= o * o);
            assert(false) by (nonlinear_arith)
                requires
                    p >= o * o,
                    s == d * p,
                    0x10_0000_0000_0000 * s <= n * o,
                    n < d * o,
                    d > 0,
                    o > 0,
            {
                assert(n * o < (d * o) * o);
                assert(d * p >= d * (o * o));
                assert((d * o) * o == d * (o * o));
            }
        }
    }
    let m = half_even(n * o, s);
    nearest_integers_are_near(n * o, s);
    half_even_bounds(n * o, s);
    let a = n * o;
    assert(a / s < 0x20_0000_0000_0000) by (nonlinear_arith)
        requires
            a < 0x20_0000_0000_0000 * s,
            s > 0,
    ;
    let u = nearest(n, d).units();
    assert(u == m * p);
    assert((m * p) * d == m * s) by (nonlinear_arith)
        requires
            s == d * p,
    ;
}

/// A whole quotient is exact.
proof fn exact_ratio(x: nat, y: nat, k: nat)
    requires
        y > 0,
        x == k * y,
        0 < k < 0x20_0000_0000_0000,
    ensures
        nearest(x, y) == int_double(k),
        int_double(k).units() == k * one(),
{
    let o = one();
    let d = int_double(k);
    int_is_exact(k);
    let m = d.mant as nat;
    let p = pow2((d.exp + unit_bits()) as nat);
    assert(x > 0) by (nonlinear_arith)
        requires
            x == k * y,
            k > 0,
            y > 0,
    ;
    assert((x * o) * 1 == m * (y * p)) by (nonlinear_arith)
        requires
            m * p == k * o,
            x == k * y,
    ;
    nearest_of_ratio(x, y, m, 1, d.exp as int);
    assert(m / 1 == m && m % 1 == 0) by (nonlinear_arith);
}

/// The quotient of integers below two to the 53rd that is a whole number is that number.
pub proof fn whole_quotients_are_exact(k: nat, b: nat)
    requires
        0 < k,
        0 < b,
        k * b < 0x20_0000_0000_0000,
    ensures
        quotient(int_double(k * b), int_double(b)) == int_double(k),
{
    let o = one();
    assert(0 < k * b && k <= k * b && b <= k * b) by (nonlinear_arith)
        requires
            0 < k,
            0 < b,
    ;
    int_is_exact(k * b);
    int_is_exact(b);
    lemma_pow2_pos(unit_bits());
    assert(b * o > 0) by (nonlinear_arith)
        requires
            b > 0,
            o > 0,
    ;
    assert((k * b) * o == k * (b * o)) by (nonlinear_arith);
    exact_ratio((k * b) * o, b * o, k);
}

/// The product of integers that is below two to the 53rd is exact.
pub proof fn whole_products_are_exact(a: nat, b: nat)
    requires
        0 < a,
        0 < b,
        a * b < 0x20_0000_0000_0000,
    ensures
        product(int_double(a), int_double(b)) == int_double(a * b),
{
    let o = one();
    assert(0 < a * b && a <= a * b && b <= a * b) by (nonlinear_arith)
        requires
            0 < a,
            0 < b,
    ;
    int_is_exact(a);
    int_is_exact(b);
    lemma_pow2_pos(unit_bits());
    assert(o * o > 0) by (nonlinear_arith)
        requires
            o > 0,
    ;
    assert((a * o) * (b * o) == (a * b) * (o * o)) by (nonlinear_arith);
    exact_ratio((a * o) * (b * o), o * o, a * b);
}

proof fn one_is_large()
    ensures
        one() > 0x1000_0000_0000_0000_0000_0000_0000_0000,
{
    lemma2_to64();
    lemma_pow2_adds(64, 64);
    lemma_pow2_strictly_increases(128, unit_bits());
    assert(0x1_0000_0000_0000_0000nat * 0x1_0000_0000_0000_0000nat
        > 0x1000_0000_0000_0000_0000_0000_0000_0000nat);
}

/// A number times a quotient, worked out in double precision, differs from its true value
/// by less than a half over the divisor, where the number times the dividend is below two
/// to the 50th.
#[verifier::spinoff_prover]
pub proof fn scaled_quotients_are_near(a: nat, b: nat, c: nat)
    requires
        0 < a,
        0 < b < 0x20_0000_0000_0000,
        0 < c,
        a * c < 0x4_0000_0000_0000,
    ensures
        ({
            let q = quotient(int_double(a), int_double(b));
            let u = product(q, int_double(c)).units();
            &&& product(int_double(c), q) == product(q, int_double(c))
            &&& 2 * (u * b) < 2 * ((a * c) * one()) + one()
            &&& 2 * ((a * c) * one()) < 2 * (u * b) + one()
        }),
{
    let o = one();
    one_is_large();
    let big = 0x20_0000_0000_0000nat;
    let x = a * c;
    assert(a <= x && c <= x && x > 0) by (nonlinear_arith)
        requires
            x == a * c,
            0 < a,
            0 < c,
    ;
    int_is_exact(a);
    int_is_exact(b);
    int_is_exact(c);
    let q = quotient(int_double(a), int_double(b));
    let v = q.units();
    // The quotient.
    assert(b * o > 0) by (nonlinear_arith)
        requires
            b > 0,
            o > 0,
    ;
    assert(0x10_0000_0000_0000 * (b * o) <= (a * o) * o) by (nonlinear_arith)
        requires
            0 < a,
            0 < b < 0x20_0000_0000_0000,
            o > 0x1000_0000_0000_0000_0000_0000_0000_0000,
    {
        assert(0x10_0000_0000_0000 * b <= o);
        assert((0x10_0000_0000_0000 * b) * o <= o * o);
        assert(o * o <= (a * o) * o);
    }
    assert(a * o < (b * o) * o) by (nonlinear_arith)
        requires
            0 < b,
            a < 0x20_0000_0000_0000,
            o > 0x1000_0000_0000_0000_0000_0000_0000_0000,
    {
        assert(a < o);
        assert(a * o < o * o);
        assert(o * o <= (b * o) * o);
    }
    nearest_numbers_are_near(a * o, b * o);
    assert(0x20_0000_0000_0000 * (v * b) <= 0x20_0000_0000_0001 * (a * o)
        && 0x1f_ffff_ffff_ffff * (a * o) <= 0x20_0000_0000_0000 * (v * b)) by (nonlinear_arith)
        requires
            0x20_0000_0000_0000 * (v * (b * o)) <= 0x20_0000_0000_0001 * ((a * o) * o),
            0x1f_ffff_ffff_ffff * ((a * o) * o) <= 0x20_0000_0000_0000 * (v * (b * o)),
            o > 0,
    {
        assert((0x20_0000_0000_0000 * (v * b)) * o == 0x20_0000_0000_0000 * (v * (b * o)));
        assert((0x20_0000_0000_0001 * (a * o)) * o == 0x20_0000_0000_0001 * ((a * o) * o));
        assert((0x1f_ffff_ffff_ffff * (a * o)) * o == 0x1f_ffff_ffff_ffff * ((a * o) * o));
    }
    // The product.
    let n = v * (c * o);
    assert((c * o) * v == n) by (nonlinear_arith)
        requires
            n == v * (c * o),
    ;
    let w = v * c;
    assert(n == w * o) by (nonlinear_arith)
        requires
            n == v * (c * o),
            w == v * c,
    ;
    assert(w * b == (v * b) * c) by (nonlinear_arith)
        requires
            w == v * c,
    ;
    let (vb, ao) = (v * b, a * o);
    assert(big * (w * b) <= 0x20_0000_0000_0001 * (x * o) && 0x1f_ffff_ffff_ffff * (x * o) <= big
        * (w * b)) by (nonlinear_arith)
        requires
            w * b == vb * c,
            x == a * c,
            ao == a * o,
            big == 0x20_0000_0000_0000,
            0x20_0000_0000_0000 * vb <= 0x20_0000_0000_0001 * ao,
            0x1f_ffff_ffff_ffff * ao <= 0x20_0000_0000_0000 * vb,
            c > 0,
    {
        assert((0x20_0000_0000_0000 * vb) * c <= (0x20_0000_0000_0001 * ao) * c);
        assert((0x1f_ffff_ffff_ffff * ao) * c <= (0x20_0000_0000_0000 * vb) * c);
        assert(ao * c == x * o);
    }
    assert(w * b >= o / 2) by (nonlinear_arith)
        requires
            0x1f_ffff_ffff_ffff * (x * o) <= 0x20_0000_0000_0000 * (w * b),
            x >= 1,
            o > 0,
    {
        assert(x * o >= o);
    }
    assert(w >= 0x10_0000_0000_0000) by (nonlinear_arith)
        requires
            w * b >= o / 2,
            b < 0x20_0000_0000_0000,
            o > 0x1000_0000_0000_0000_0000_0000_0000_0000,
    {
        if w < 0x10_0000_0000_0000 {
            assert(w * b <= 0x10_0000_0000_0000 * 0x20_0000_0000_0000);
        }
    }
    assert(w < o * o) by (nonlinear_arith)
        requires
            0x20_0000_0000_0000 * (w * b) <= 0x20_0000_0000_0001 * (x * o),
            b >= 1,
            x < 0x4_0000_0000_0000,
            o > 0x1000_0000_0000_0000_0000_0000_0000_0000,
    {
        assert(w <= w * b);
        assert(x * o <= 0x4_0000_0000_0000 * o);
        assert(w <= 2 * (0x4_0000_0000_0000 * o));
        assert(0x8_0000_0000_0000 * o < o * o);
    }
    assert(o * o > 0) by (nonlinear_arith)
        requires
            o > 0,
    ;
    assert(0x10_0000_0000_0000 * (o * o) <= n * o && n < (o * o) * o) by (nonlinear_arith)
        requires
            n == w * o,
            0x10_0000_0000_0000 <= w < o * o,
            o > 0,
    {
        assert(n * o == w * (o * o));
        assert(w * o < (o * o) * o);
    }
    nearest_numbers_are_near(n, o * o);
    let u = nearest(n, o * o).units();
    assert(product(q, int_double(c)).units() == u);
    assert(big * u <= 0x20_0000_0000_0001 * w && 0x1f_ffff_ffff_ffff * w <= big * u)
        by (nonlinear_arith)
        requires
            big == 0x20_0000_0000_0000,
            n == w * o,
            0x20_0000_0000_0000 * (u * (o * o)) <= 0x20_0000_0000_0001 * (n * o),
            0x1f_ffff_ffff_ffff * (n * o) <= 0x20_0000_0000_0000 * (u * (o * o)),
            o > 0,
    {
        let s = o * o;
        assert(s > 0);
        assert(n * o == w * s);
        assert((big * u) * s == 0x20_0000_0000_0000 * (u * s));
        assert((0x20_0000_0000_0001 * w) * s == 0x20_0000_0000_0001 * (w * s));
        assert((0x1f_ffff_ffff_ffff * w) * s == 0x1f_ffff_ffff_ffff * (w * s));
    }
    // Both together.
    let (wb, ub, xo) = (w * b, u * b, x * o);
    assert(big * ub <= 0x20_0000_0000_0001 * wb && 0x1f_ffff_ffff_ffff * wb <= big * ub)
        by (nonlinear_arith)
        requires
            wb == w * b,
            ub == u * b,
            big == 0x20_0000_0000_0000,
            big * u <= 0x20_0000_0000_0001 * w,
            0x1f_ffff_ffff_ffff * w <= big * u,
            b > 0,
    {
        assert((big * u) * b <= (0x20_0000_0000_0001 * w) * b);
        assert((0x1f_ffff_ffff_ffff * w) * b <= (big * u) * b);
    }
    assert(xo < 0x4_0000_0000_0000 * o) by (nonlinear_arith)
        requires
            xo == x * o,
            x < 0x4_0000_0000_0000,
            o > 0,
    ;
}

/// The integer part of a number times a quotient is that of its true value, but that it may
/// miss a whole one by one.
pub proof fn parts_are_whole_parts(a: nat, b: nat, c: nat)
    requires
        0 < a,
        0 < b < 0x20_0000_0000_0000,
        0 < c,
        a * c < 0x4_0000_0000_0000,
    ensures
        ({
            let r = whole(product(quotient(int_double(a), int_double(b)), int_double(c)));
            &&& r == whole(product(int_double(c), quotient(int_double(a), int_double(b))))
            &&& r * b <= a * c <= (r + 1) * b
        }),
{
    let o = one();
    lemma_pow2_pos(unit_bits());
    scaled_quotients_are_near(a, b, c);
    let u = product(quotient(int_double(a), int_double(b)), int_double(c)).units();
    let r = u / o;
    let x = a * c;
    assert(r * o <= u < (r + 1) * o) by (nonlinear_arith)
        requires
            r == u / o,
            o > 0,
    ;
    assert(r * b <= x <= (r + 1) * b) by (nonlinear_arith)
        requires
            r * o <= u < (r + 1) * o,
            2 * (u * b) < 2 * (x * o) + o,
            2 * (x * o) < 2 * (u * b) + o,
            o > 0,
            b > 0,
    {
        assert((r * o) * b <= u * b);
        assert(u * b <= ((r + 1) * o) * b);
        if r * b > x {
            assert((r * b) * o >= (x + 1) * o);
            assert((r * b) * o == (r * o) * b);
        }
        if (r + 1) * b < x {
            assert(((r + 1) * b + 1) * o <= x * o);
            assert(((r + 1) * b) * o == ((r + 1) * o) * b);
        }
    }
}

/// The nearest integers to a number times a quotient are nearest to its true value.
pub proof fn nearest_parts_are_near(a: nat, b: nat, c: nat)
    requires
        0 < a,
        0 < b < 0x20_0000_0000_0000,
        0 < c,
        a * c < 0x4_0000_0000_0000,
    ensures
        ({
            let p = product(quotient(int_double(a), int_double(b)), int_double(c));
            let (r, s) = (nearest_int(p), rounded(p));
            &&& 2 * (r * b) <= 2 * (a * c) + b
            &&& 2 * (a * c) <= 2 * (r * b) + b
            &&& 2 * (s * b) <= 2 * (a * c) + b
            &&& 2 * (a * c) <= 2 * (s * b) + b
        }),
{
    let o = one();
    lemma_pow2_pos(unit_bits());
    scaled_quotients_are_near(a, b, c);
    let u = product(quotient(int_double(a), int_double(b)), int_double(c)).units();
    nearest_integers_are_near(u, o);
    near_both_ways(u, half_even(u, o), o, a * c, b);
    let s = (2 * u + o) / (2 * o);
    assert(2 * (s * o) <= 2 * u + o && 2 * u <= 2 * (s * o) + o) by (nonlinear_arith)
        requires
            s == (2 * u + o) / (2 * o),
            o > 0,
    {
        assert(s * (2 * o) <= 2 * u + o < (s + 1) * (2 * o));
    }
    near_both_ways(u, s, o, a * c, b);
}

proof fn near_both_ways(u: nat, r: nat, o: nat, x: nat, b: nat)
    requires
        o > 0,
        b > 0,
        2 * (r * o) <= 2 * u + o,
        2 * u <= 2 * (r * o) + o,
        2 * (u * b) < 2 * (x * o) + o,
        2 * (x * o) < 2 * (u * b) + o,
    ensures
        2 * (r * b) <= 2 * x + b,
        2 * x <= 2 * (r * b) + b,
{
    let (ro, rb) = (r * o, r * b);
    assert(ro * b == rb * o) by (nonlinear_arith)
        requires
            ro == r * o,
            rb == r * b,
    ;
    assert(2 * (ro * b) <= 2 * (u * b) + o * b && 2 * (u * b) <= 2 * (ro * b) + o * b)
        by (nonlinear_arith)
        requires
            2 * ro <= 2 * u + o,
            2 * u <= 2 * ro + o,
            b > 0,
    ;
    assert(2 * rb <= 2 * x + b && 2 * x <= 2 * rb + b) by (nonlinear_arith)
        requires
            2 * (rb * o) < 2 * (x * o) + o + o * b,
            2 * (x * o) < 2 * (rb * o) + o + o * b,
            o > 0,
    {
        assert((2 * rb) * o < (2 * x + 1 + b) * o);
        assert((2 * x) * o < (2 * rb + 1 + b) * o);
    }
}

/// None of anything, times anything, is none in every way of rounding.
pub proof fn nothing_is_no_part(b: Double, c: Double)
    ensures
        ({
            let p = product(quotient(int_double(0), b), c);
            whole(p) == 0 && rounded(p) == 0 && nearest_int(p) == 0 && quotient(int_double(0), b)
                == int_double(0)
        }),
{
    let z = Double { mant: 0, exp: 0 };
    units_zero(z);
    let u = c.units();
    assert(0nat * u == 0) by (nonlinear_arith);
    lemma_pow2_pos(unit_bits());
    let o = one();
    assert(0nat / o == 0 && 0nat % o == 0 && o / (2 * o) == 0) by (nonlinear_arith)
        requires
            o > 0,
    ;
}

/// A common factor does not change the number nearest to a quotient.
pub proof fn common_factors_cancel(x: nat, n: nat, d: nat)
    requires
        x > 0,
        n > 0,
        d > 0,
        0x10_0000_0000_0000 * d <= n * one(),
    ensures
        nearest(x * n, x * d) == nearest(n, d),
{
    let o = one();
    lemma2_to64();
    assert((-unit_bits() + unit_bits()) as nat == 0);
    assert(d * pow2(0) == d) by (nonlinear_arith)
        requires
            pow2(0) == 1,
    ;
    let e = binade_from(n, d, -unit_bits());
    let p = pow2((e + unit_bits()) as nat);
    lemma_pow2_pos((e + unit_bits()) as nat);
    assert((x * n) * o == x * (n * o) && (x * d) * p == x * (d * p)) by (nonlinear_arith);
    let (a, s) = (n * o, d * p);
    assert(0x10_0000_0000_0000 * (x * s) <= x * a && x * a < 0x20_0000_0000_0000 * (x * s))
        by (nonlinear_arith)
        requires
            0x10_0000_0000_0000 * s <= a,
            a < 0x20_0000_0000_0000 * s,
            x > 0,
    ;
    let (xn, xd) = (x * n, x * d);
    assert(in_binade(xn, xd, e));
    binade_unique(n, d, e, choose|c: int| in_binade(n, d, c));
    binade_unique(xn, xd, e, choose|c: int| in_binade(xn, xd, c));
    assert(s > 0) by (nonlinear_arith)
        requires
            s == d * p,
            d > 0,
            p > 0,
    ;
    assert(x * n > 0) by (nonlinear_arith)
        requires
            x > 0,
            n > 0,
    ;
    half_even_scales(x, a, s);
}

/// The quotient of two integers reaches four fifths just where five times the first reaches
/// four times the second.
#[verifier::spinoff_prover]
pub proof fn quotient_reaches_four_fifths(a: nat, b: nat)
    requires
        a < 0x2_0000_0000_0000,
        0 < b < 0x2_0000_0000_0000,
    ensures
        quotient(int_double(a), int_double(b)).units() >= quotient(
            int_double(8),
            int_double(10),
        ).units() <==> 5 * a >= 4 * b,
{
    let o = one();
    one_is_large();
    int_is_exact(b);
    int_is_exact(8);
    int_is_exact(10);
    let big = 0x20_0000_0000_0000nat;
    let f = quotient(int_double(8), int_double(10)).units();
    let v = quotient(int_double(a), int_double(b)).units();
    assert(0x10_0000_0000_0000 * (10 * o) <= (8 * o) * o && 8 * o < (10 * o) * o)
        by (nonlinear_arith)
        requires
            o > 0x1000_0000_0000_0000_0000_0000_0000_0000,
    {
        assert(0x100_0000_0000_0000 * o <= o * o);
    }
    nearest_numbers_are_near(8 * o, 10 * o);
    assert(big * (f * 10) <= 0x20_0000_0000_0001 * (8 * o) && 0x1f_ffff_ffff_ffff * (8 * o) <= big
        * (f * 10)) by (nonlinear_arith)
        requires
            big == 0x20_0000_0000_0000,
            big * (f * (10 * o)) <= 0x20_0000_0000_0001 * ((8 * o) * o),
            0x1f_ffff_ffff_ffff * ((8 * o) * o) <= big * (f * (10 * o)),
            o > 0,
    {
        assert((big * (f * 10)) * o == big * (f * (10 * o)));
        assert((0x20_0000_0000_0001 * (8 * o)) * o == 0x20_0000_0000_0001 * ((8 * o) * o));
        assert((0x1f_ffff_ffff_ffff * (8 * o)) * o == 0x1f_ffff_ffff_ffff * ((8 * o) * o));
    }
    assert(f > 0) by (nonlinear_arith)
        requires
            0x1f_ffff_ffff_ffff * (8 * o) <= big * (f * 10),
            o > 0,
    ;
    if a == 0 {
        units_zero(Double { mant: 0, exp: 0 });
    } else {
        int_is_exact(a);
        assert(b * o > 0) by (nonlinear_arith)
            requires
                b > 0,
                o > 0,
        ;
        assert(0x10_0000_0000_0000 * (b * o) <= (a * o) * o && a * o < (b * o) * o)
            by (nonlinear_arith)
            requires
                0 < a < 0x20_0000_0000_0000,
                0 < b < 0x20_0000_0000_0000,
                o > 0x1000_0000_0000_0000_0000_0000_0000_0000,
        {
            assert((0x10_0000_0000_0000 * b) * o <= o * o);
            assert(o * o <= (a * o) * o);
            assert(a * o < o * o);
            assert(o * o <= (b * o) * o);
        }
        nearest_numbers_are_near(a * o, b * o);
        let (vb, ao) = (v * b, a * o);
        assert(big * vb <= 0x20_0000_0000_0001 * ao && 0x1f_ffff_ffff_ffff * ao <= big * vb)
            by (nonlinear_arith)
            requires
                vb == v * b,
                ao == a * o,
                big * (v * (b * o)) <= 0x20_0000_0000_0001 * ((a * o) * o),
                0x1f_ffff_ffff_ffff * ((a * o) * o) <= big * (v * (b * o)),
                o > 0,
        {
            assert((big * vb) * o == big * (v * (b * o)));
            assert((0x20_0000_0000_0001 * ao) * o == 0x20_0000_0000_0001 * ((a * o) * o));
            assert((0x1f_ffff_ffff_ffff * ao) * o == 0x1f_ffff_ffff_ffff * ((a * o) * o));
        }
        let (fb, bo) = (f * b, b * o);
        assert(10 * (big * fb) <= 8 * (0x20_0000_0000_0001 * bo) && 8 * (0x1f_ffff_ffff_ffff * bo)
            <= 10 * (big * fb)) by (nonlinear_arith)
            requires
                fb == f * b,
                bo == b * o,
                big * (f * 10) <= 0x20_0000_0000_0001 * (8 * o),
                0x1f_ffff_ffff_ffff * (8 * o) <= big * (f * 10),
                b > 0,
        {
            assert((big * (f * 10)) * b <= (0x20_0000_0000_0001 * (8 * o)) * b);
            assert((0x1f_ffff_ffff_ffff * (8 * o)) * b <= (big * (f * 10)) * b);
            assert((big * (f * 10)) * b == 10 * (big * fb));
            assert((0x20_0000_0000_0001 * (8 * o)) * b == 8 * (0x20_0000_0000_0001 * bo));
            assert((0x1f_ffff_ffff_ffff * (8 * o)) * b == 8 * (0x1f_ffff_ffff_ffff * bo));
        }
        assert(v >= f <==> vb >= fb) by (nonlinear_arith)
            requires
                vb == v * b,
                fb == f * b,
                b > 0,
        ;
        assert(bo < 0x2_0000_0000_0000 * o && ao < 0x2_0000_0000_0000 * o) by (nonlinear_arith)
            requires
                bo == b * o,
                ao == a * o,
                a < 0x2_0000_0000_0000,
                b < 0x2_0000_0000_0000,
                o > 0,
        ;
        if 5 * a > 4 * b {
            assert(5 * ao >= 4 * bo + o) by (nonlinear_arith)
                requires
                    ao == a * o,
                    bo == b * o,
                    5 * a >= 4 * b + 1,
                    o > 0,
            ;
        } else if 5 * a < 4 * b {
            assert(5 * ao + o <= 4 * bo) by (nonlinear_arith)
                requires
                    ao == a * o,
                    bo == b * o,
                    5 * a + 1 <= 4 * b,
                    o > 0,
            ;
        } else {
            let k = b / 5;
            assert(b == 5 * k && a == 4 * k && k > 0);
            assert(a * o == k * (4 * o) && b * o == k * (5 * o)) by (nonlinear_arith)
                requires
                    a == 4 * k,
                    b == 5 * k,
            ;
            assert(8 * o == 2 * (4 * o) && 10 * o == 2 * (5 * o));
            assert(0x10_0000_0000_0000 * (5 * o) <= (4 * o) * o) by (nonlinear_arith)
                requires
                    o > 0x1000_0000_0000_0000_0000_0000_0000_0000,
            {
                assert(0x100_0000_0000_0000 * o <= o * o);
            }
            common_factors_cancel(k, 4 * o, 5 * o);
            common_factors_cancel(2, 4 * o, 5 * o);
        }
    }
}

/// A multiple of four times one and a quarter is exact.
pub proof fn a_quarter_more_is_exact(k: nat)
    requires
        0 < k,
        5 * k < 0x20_0000_0000_0000,
    ensures
        whole(product(int_double(4 * k), Double { mant: 5, exp: -2i32 })) == 5 * k,
{
    let o = one();
    let s = Double { mant: 5, exp: -2i32 };
    lemma2_to64();
    lemma_pow2_adds(2, 3998);
    lemma_pow2_pos(3998);
    let x = pow2(3998);
    assert(s.units() == 5 * x);
    int_is_exact(4 * k);
    int_is_exact(5 * k);
    assert(o * o > 0) by (nonlinear_arith)
        requires
            o == 4 * x,
            x > 0,
    ;
    assert(((4 * k) * o) * (5 * x) == (5 * k) * (o * o)) by (nonlinear_arith)
        requires
            o == 4 * x,
    ;
    exact_ratio(((4 * k) * o) * (5 * x), o * o, 5 * k);
    let n = 5 * k;
    assert((n * o) / o == n) by (nonlinear_arith)
        requires
            o > 0,
    ;
}

/// An integer below two to the 53rd is itself in every way of rounding.
pub proof fn integers_are_not_rounded(n: nat)
    requires
        0 < n < 0x20_0000_0000_0000,
    ensures
        ({
            let d = int_double(n);
            whole(d) == n && rounded(d) == n && nearest_int(d) == n && tenths(d) == 10 * n
        }),
{
    let o = one();
    int_is_exact(n);
    lemma_pow2_pos(unit_bits());
    assert((n * o) / o == n && (n * o) % o == 0 && (2 * (n * o) + o) / (2 * o) == n)
        by (nonlinear_arith)
        requires
            o > 0,
    ;
    let m = 10 * n;
    assert(10 * (n * o) == m * o) by (nonlinear_arith)
        requires
            m == 10 * n,
    ;
    assert((m * o) / o == m && (m * o) % o == 0) by (nonlinear_arith)
        requires
            o > 0,
    ;
}

/// The integer part is the greatest integer that is not above a number; the rounded one is
/// at most a half away, and a half is rounded up.
pub proof fn integer_parts_are_below(a: Double)
    ensures
        whole(a) * one() <= a.units() < (whole(a) + 1) * one(),
        2 * (rounded(a) * one()) <= 2 * a.units() + one() < 2 * ((rounded(a) + 1) * one()),
{
    let o = one();
    let u = a.units();
    lemma_pow2_pos(unit_bits());
    let (w, r) = (u / o, (2 * u + o) / (2 * o));
    assert(w * o <= u < (w + 1) * o) by (nonlinear_arith)
        requires
            w == u / o,
            o > 0,
    ;
    assert(2 * (r * o) <= 2 * u + o < 2 * ((r + 1) * o)) by (nonlinear_arith)
        requires
            r == (2 * u + o) / (2 * o),
            o > 0,
    {
        assert(r * (2 * o) <= 2 * u + o < (r + 1) * (2 * o));
    }
}

/// Of two integers that are equally near the even one is the nearest.
pub proof fn ties_go_to_the_even_one(k: nat, d: nat)
    requires
        d > 0,
        d % 2 == 0,
    ensures
        half_even(k * d + d / 2, d) % 2 == 0,
        half_even(k * d, d) == k,
{
    let h = d / 2;
    let n = k * d + h;
    assert(n / d == k && n % d == h) by (nonlinear_arith)
        requires
            n == k * d + h,
            0 <= h < d,
    ;
    assert((k * d) / d == k && (k * d) % d == 0) by (nonlinear_arith)
        requires
            d > 0,
    ;
}

} // verus!
