//! Numbers rounded to a fixed count of decimals the way a double-precision quotient prints.

use crate::text::decimal;
use crate::text::decimal_string;
use crate::text::digit_char;
use crate::text::joined3;
use vstd::prelude::*;

verus! {

/// The integer nearest to `n / d`, the even one of two that are equally near.
pub open spec fn round_even(n: nat, d: nat) -> nat {
    let q = n / d;
    let r = n % d;
    if 2 * r > d || (2 * r == d && q % 2 == 1) {
        q + 1
    } else {
        q
    }
}

/// The integer nearest to `n / d`, the even one of two that are equally near.
pub fn round_div(n: u128, d: u128) -> (r: u128)
    requires
        0 < d <= 0x8000_0000_0000_0000_0000_0000_0000_0000u128 - 1,
        n < u128::MAX,
    ensures
        r == round_even(n as nat, d as nat),
{
    let q: u128 = n / d;
    let rest: u128 = n % d;
    proof {
        assert(q <= n) by (nonlinear_arith)
            requires
                d >= 1,
                q == n / d,
        ;
    }
    if 2 * rest > d || (2 * rest == d && q % 2 == 1) {
        q + 1
    } else {
        q
    }
}

/// A whole number of bytes as a double: up to 53 significant bits are kept, the rest is rounded
/// away.
pub open spec fn as_double(n: nat) -> nat
    decreases n,
{
    if n < 0x20_0000_0000_0000 {
        n
    } else {
        let unit = dropped_unit(n);
        round_even(n, unit) * unit
    }
}

/// The weight of the last bit that a double keeps of `n`.
pub open spec fn dropped_unit(n: nat) -> nat
    decreases n,
{
    if n < 0x20_0000_0000_0000 {
        1
    } else {
        2 * dropped_unit(n / 2)
    }
}

fn unit_of(n: u64) -> (r: u64)
    ensures
        r == dropped_unit(n as nat),
        1 <= r,
        n >= 0x20_0000_0000_0000 ==> r * 0x10_0000_0000_0000 <= n,
        n < 0x20_0000_0000_0000 ==> r == 1,
    decreases n,
{
    if n < 0x20_0000_0000_0000 {
        1
    } else {
        2 * unit_of(n / 2)
    }
}

fn to_double(n: u64) -> (r: u128)
    ensures
        r == as_double(n as nat),
        r <= 0x2_0000_0000_0000_0000u128,
{
    if n < 0x20_0000_0000_0000 {
        n as u128
    } else {
        let unit: u64 = unit_of(n);
        let q: u128 = round_div(n as u128, unit as u128);
        proof {
            let u = unit as int;
            let m = n as int;
            assert(q <= m / u + 1);
            assert((m / u) * u <= m && (q as int) * u <= (m / u + 1) * u) by (nonlinear_arith)
                requires
                    u >= 1,
                    m >= 0,
                    q <= m / u + 1,
            ;
            assert((m / u + 1) * u == (m / u) * u + u) by (nonlinear_arith);
            assert(u <= m) by (nonlinear_arith)
                requires
                    u * 0x10_0000_0000_0000 <= m,
                    u >= 1,
            ;
        }
        q * unit as u128
    }
}

/// `n` doubled until it is at least `2^52 * d`.
pub open spec fn doubled(n: nat, d: nat) -> nat
    decreases
            (if n >= 0x10_0000_0000_0000 * d {
                0
            } else {
                0x10_0000_0000_0000 * d - n
            }),
{
    if n == 0 || n >= 0x10_0000_0000_0000 * d {
        n
    } else {
        doubled(2 * n, d)
    }
}

/// How much larger `doubled(n, d)` is than `n`.
pub open spec fn doubling(n: nat, d: nat) -> nat
    decreases
            (if n >= 0x10_0000_0000_0000 * d {
                0
            } else {
                0x10_0000_0000_0000 * d - n
            }),
{
    if n == 0 || n >= 0x10_0000_0000_0000 * d {
        1
    } else {
        2 * doubling(2 * n, d)
    }
}

/// The double nearest to `n / d`, times `places`, rounded to an integer: what a print of the
/// quotient with so many decimals shows, its point left out.
pub open spec fn printed(n: nat, d: nat, places: nat) -> nat {
    round_even(round_even(doubled(n, d), d) * places, doubling(n, d))
}

/// What a print of the quotient `n / d` with the decimals of `places` shows, its point left out.
pub fn print_quotient(n: u128, d: u64, places: u64) -> (r: u128)
    requires
        n <= 0x2_0000_0000_0000_0000u128,
        n < 0x20_0000_0000_0000 * d,
        1 <= d <= 0x4000_0000,
        1 <= places <= 100,
    ensures
        r == printed(n as nat, d as nat, places as nat),
{
    let bound: u128 = 0x10_0000_0000_0000u128 * d as u128;
    let mut x: u128 = n;
    let mut unit: u128 = 1;
    while x != 0 && x < bound
        invariant
            1 <= d <= 0x4000_0000,
            bound == 0x10_0000_0000_0000 * d,
            x == 0 ==> unit == 1,
            unit >= 1,
            n > 0 ==> unit <= x,
            n == 0 ==> x == 0,
            x < 2 * bound,
            doubled(n as nat, d as nat) == doubled(x as nat, d as nat),
            doubling(n as nat, d as nat) == unit * doubling(x as nat, d as nat),
        decreases
                (if x >= bound {
                    0
                } else {
                    bound - x
                }),
    {
        proof {
            let u = unit as int;
            let w = doubling((2 * x) as nat, d as nat) as int;
            assert(u * (2 * w) == (2 * u) * w) by (nonlinear_arith);
        }
        x = 2 * x;
        unit = 2 * unit;
    }
    let m: u128 = round_div(x, d as u128);
    proof {
        assert(doubling(x as nat, d as nat) == 1);
        assert(unit * 1nat == unit as nat) by (nonlinear_arith);
        assert(doubling(n as nat, d as nat) == unit);
        assert(m == round_even(doubled(n as nat, d as nat), d as nat));
        assert((m * places) as nat == (m as nat) * (places as nat));
        let xi = x as int;
        let di = d as int;
        assert(m <= xi / di + 1);
        assert(xi / di <= 0x20_0000_0000_0000) by (nonlinear_arith)
            requires
                xi < 2 * (0x10_0000_0000_0000 * di),
                di >= 1,
        ;
        assert(m * places <= 0x20_0000_0000_0001 * 100) by (nonlinear_arith)
            requires
                m <= 0x20_0000_0000_0001,
                places <= 100,
        ;
    }
    round_div(m * places as u128, unit)
}

/// A number with its last digit after a point.
pub open spec fn with_one_decimal(h: nat) -> Seq<char> {
    decimal(h / 10) + seq!['.'] + seq![digit_char((h % 10) as int)]
}

/// A number with its last two digits after a point.
pub open spec fn with_two_decimals(h: nat) -> Seq<char> {
    decimal(h / 100) + seq!['.'] + seq![
        digit_char((h / 10 % 10) as int),
        digit_char((h % 10) as int),
    ]
}

fn one_digit(d: u64) -> (r: String)
    requires
        d < 10,
    ensures
        r@ == seq![digit_char(d as int)],
{
    decimal_string(d)
}

/// A number with its last digit after a point.
pub fn one_decimal(h: u64) -> (r: String)
    ensures
        r@ == with_one_decimal(h as nat),
{
    let whole: String = decimal_string(h / 10);
    let tail: String = one_digit(h % 10);
    proof {
        reveal_strlit(".");
        assert("."@ =~= seq!['.']);
    }
    joined3(whole.as_str(), ".", tail.as_str())
}

/// A number with its last two digits after a point.
pub fn two_decimals(h: u64) -> (r: String)
    ensures
        r@ == with_two_decimals(h as nat),
{
    let whole: String = decimal_string(h / 100);
    let tens: String = one_digit(h / 10 % 10);
    let ones: String = one_digit(h % 10);
    let tail: String = crate::text::joined(tens.as_str(), ones.as_str());
    proof {
        reveal_strlit(".");
        assert("."@ =~= seq!['.']);
        assert(tail@ =~= seq![
            digit_char((h / 10 % 10) as int),
            digit_char((h % 10) as int),
        ]);
    }
    joined3(whole.as_str(), ".", tail.as_str())
}

/// A count of bytes as a double, for the prints of sizes.
pub fn bytes_as_double(bytes: u64) -> (r: u128)
    ensures
        r == as_double(bytes as nat),
        r <= 0x2_0000_0000_0000_0000u128,
        bytes < 0x20_0000_0000_0000 ==> r == bytes,
{
    to_double(bytes)
}

/// Rounding to the nearest: the quotient is off by no more than a half, and even where it is off by
/// exactly a half.
pub proof fn lemma_round_even(n: nat, d: nat)
    requires
        d > 0,
    ensures
        2 * (round_even(n, d) * d) <= 2 * n + d,
        2 * n <= 2 * (round_even(n, d) * d) + d,
        2 * (round_even(n, d) * d) == 2 * n + d || 2 * n == 2 * (round_even(n, d) * d) + d
            ==> round_even(n, d) % 2 == 0,
{
    let q = (n / d) as int;
    let r = (n % d) as int;
    let e = d as int;
    vstd::arithmetic::div_mod::lemma_fundamental_div_mod(n as int, e);
    vstd::arithmetic::div_mod::lemma_mod_bound(n as int, e);
    assert(n == q * e + r) by (nonlinear_arith)
        requires
            n == e * q + r,
    ;
    assert((q + 1) * e == q * e + e) by (nonlinear_arith);
}

/// Small numbers are kept as they are.
pub proof fn lemma_as_double_small(n: nat)
    requires
        n <= 0x20_0000_0000_0000,
    ensures
        as_double(n) == n,
{
    if n == 0x20_0000_0000_0000 {
        reveal_with_fuel(dropped_unit, 2);
        assert(dropped_unit(n) == 2);
        assert(round_even(n, 2) == 0x10_0000_0000_0000);
    }
}

/// One decimal: the whole part, a point and a digit.
pub proof fn lemma_one_decimal(a: nat, b: nat)
    requires
        b < 10,
    ensures
        with_one_decimal(10 * a + b) == decimal(a) + seq!['.'] + decimal(b),
{
    assert((10 * a + b) / 10 == a);
    assert((10 * a + b) % 10 == b);
}

/// Two decimals: the whole part, a point and two digits.
pub proof fn lemma_two_decimals(a: nat, b: nat, c: nat)
    requires
        b < 10,
        c < 10,
    ensures
        with_two_decimals(100 * a + 10 * b + c) == decimal(a) + seq!['.'] + decimal(b) + decimal(c),
{
    let h = 100 * a + 10 * b + c;
    assert(h / 100 == a);
    assert(h / 10 == 10 * a + b);
    assert(h / 10 % 10 == b);
    assert(h % 10 == c);
    assert(with_two_decimals(h) =~= decimal(a) + seq!['.'] + decimal(b) + decimal(c));
}

/// A whole number as a double is off by no more than half of its last bit.
pub proof fn lemma_as_double_close(n: nat)
    ensures
        2 * as_double(n) <= 2 * n + dropped_unit(n),
        2 * n <= 2 * as_double(n) + dropped_unit(n),
        n >= 0x20_0000_0000_0000 ==> dropped_unit(n) * 0x10_0000_0000_0000 <= n,
{
    lemma_dropped_unit(n);
    if n >= 0x20_0000_0000_0000 {
        lemma_round_even(n, dropped_unit(n));
    }
}

proof fn lemma_dropped_unit(n: nat)
    ensures
        dropped_unit(n) >= 1,
        n >= 0x20_0000_0000_0000 ==> dropped_unit(n) * 0x10_0000_0000_0000 <= n,
    decreases n,
{
    if n >= 0x20_0000_0000_0000 {
        lemma_dropped_unit(n / 2);
    }
}

/// A printed quotient is off by no more than one in its last place, where a double holds the
/// quotient to that many places.
pub proof fn lemma_printed_close(n: nat, d: nat, places: nat)
    requires
        d > 0,
        places <= doubling(n, d),
    ensures
        printed(n, d, places) * d <= n * places + d,
        n * places <= printed(n, d, places) * d + d,
{
    let u = doubling(n, d);
    let x = doubled(n, d);
    lemma_doubled_by(n, d);
    let q = round_even(x, d);
    lemma_round_even(x, d);
    let p = round_even(q * places, u);
    lemma_round_even(q * places, u);
    lemma_close(n as int, d as int, places as int, u as int, q as int, p as int);
}

proof fn lemma_close(n: int, d: int, places: int, u: int, q: int, p: int)
    requires
        0 < d,
        0 < u,
        0 <= places <= u,
        2 * (q * d) <= 2 * (n * u) + d,
        2 * (n * u) <= 2 * (q * d) + d,
        2 * (p * u) <= 2 * (q * places) + u,
        2 * (q * places) <= 2 * (p * u) + u,
    ensures
        p * d <= n * places + d,
        n * places <= p * d + d,
{
    assert(2 * (p * u) * d <= 2 * (q * places) * d + u * d) by (nonlinear_arith)
        requires
            2 * (p * u) <= 2 * (q * places) + u,
            0 < d,
    ;
    assert(2 * (q * places) * d <= 2 * (p * u) * d + u * d) by (nonlinear_arith)
        requires
            2 * (q * places) <= 2 * (p * u) + u,
            0 < d,
    ;
    assert(2 * (q * d) * places <= 2 * (n * u) * places + d * places) by (nonlinear_arith)
        requires
            2 * (q * d) <= 2 * (n * u) + d,
            0 <= places,
    ;
    assert(2 * (n * u) * places <= 2 * (q * d) * places + d * places) by (nonlinear_arith)
        requires
            2 * (n * u) <= 2 * (q * d) + d,
            0 <= places,
    ;
    assert(d * places <= d * u) by (nonlinear_arith)
        requires
            0 <= places <= u,
            0 < d,
    ;
    assert(2 * (q * places) * d == 2 * (q * d) * places) by (nonlinear_arith);
    assert(2 * (p * u) * d == 2 * (p * d) * u) by (nonlinear_arith);
    assert(2 * (n * u) * places == 2 * (n * places) * u) by (nonlinear_arith);
    assert(u * d == d * u) by (nonlinear_arith);
    assert(2 * (p * d) * u <= 2 * (n * places) * u + 2 * (d * u));
    assert(2 * (n * places) * u <= 2 * (p * d) * u + 2 * (d * u));
    assert(p * d <= n * places + d) by (nonlinear_arith)
        requires
            2 * (p * d) * u <= 2 * (n * places) * u + 2 * (d * u),
            0 < u,
    ;
    assert(n * places <= p * d + d) by (nonlinear_arith)
        requires
            2 * (n * places) * u <= 2 * (p * d) * u + 2 * (d * u),
            0 < u,
    ;
}

proof fn lemma_doubled_by(n: nat, d: nat)
    requires
        d > 0,
    ensures
        doubled(n, d) == n * doubling(n, d),
        doubling(n, d) >= 1,
    decreases
            (if n >= 0x10_0000_0000_0000 * d {
                0
            } else {
                0x10_0000_0000_0000 * d - n
            }),
{
    if !(n == 0 || n >= 0x10_0000_0000_0000 * d) {
        lemma_doubled_by(2 * n, d);
        let w = doubling(2 * n, d);
        assert((2 * n) * w == n * (2 * w)) by (nonlinear_arith);
    } else {
        assert(n * 1 == n) by (nonlinear_arith);
    }
}

} // verus!
