//! Fixed-point quantities.
//!
//! Seconds, speeds, gains and sizes are carried as whole billionths in an `i64`: nine decimals
//! are more than any of them is entered or printed with, and whole numbers divide, compare and
//! print the same on every machine. A result that leaves the range of an `i64` rests at its end.

use vstd::prelude::*;
use vstd::string::*;

verus! {

/// One whole: a second, or a factor that changes nothing.
pub const ONE: i64 = 1_000_000_000;

// --- Ranges and rounding ---

/// The nearest number to `x` that an `i64` can hold.
pub open spec fn sat(x: int) -> int {
    if x > i64::MAX {
        i64::MAX as int
    } else if x < i64::MIN {
        i64::MIN as int
    } else {
        x
    }
}

pub fn clamp64(x: i128) -> (r: i64)
    ensures
        r == sat(x as int),
{
    if x > i64::MAX as i128 {
        i64::MAX
    } else if x < i64::MIN as i128 {
        i64::MIN
    } else {
        x as i64
    }
}

/// Whether a factor is far enough from 1 to change anything, a billionth being the slack. At that
/// distance exactly the double that holds the factor decides: the one for 1.000000001 lies just
/// over a billionth from 1, the one for 0.999999999 just under.
pub open spec fn changes(factor: int) -> bool {
    factor > ONE || factor < ONE - 1
}

/// Whether a factor is far enough from 1 to change anything.
pub fn is_change(factor: i64) -> (r: bool)
    ensures
        r == changes(factor as int),
{
    factor > 1_000_000_000 || factor < 999_999_999
}

pub open spec fn abs(x: int) -> int {
    if x < 0 {
        -x
    } else {
        x
    }
}

/// `n / d` for a positive `d`, rounded to the nearest whole number, halves away from zero.
pub open spec fn nearest(n: int, d: int) -> int {
    if n >= 0 {
        (2 * n + d) / (2 * d)
    } else {
        -((-2 * n + d) / (2 * d))
    }
}

/// `n / d` for a non-negative `n` and a positive `d`, rounded to the nearest whole number,
/// halves to the even one.
pub open spec fn nearest_even(n: int, d: int) -> int {
    if 2 * (n % d) > d || (2 * (n % d) == d && (n / d) % 2 == 1) {
        n / d + 1
    } else {
        n / d
    }
}

pub proof fn lemma_nearest_parts(m: int, d: int)
    requires
        m >= 0,
        d > 0,
    ensures
        nearest(m, d) == m / d + (if 2 * (m % d) >= d { 1int } else { 0int }),
        0 <= m % d < d,
        m / d >= 0,
{
    let q = m / d;
    let r = m % d;
    vstd::arithmetic::div_mod::lemma_fundamental_div_mod(m, d);
    assert(m == d * q + r);
    assert(q >= 0 && 0 <= r < d) by (nonlinear_arith)
        requires
            m >= 0,
            d > 0,
            q == m / d,
            r == m % d,
    ;
    if 2 * r >= d {
        assert(2 * m + d == (q + 1) * (2 * d) + (2 * r - d)) by (nonlinear_arith)
            requires
                m == d * q + r,
        ;
        vstd::arithmetic::div_mod::lemma_fundamental_div_mod_converse(2 * m + d, 2 * d, q + 1, 2 * r - d);
    } else {
        assert(2 * m + d == q * (2 * d) + (2 * r + d)) by (nonlinear_arith)
            requires
                m == d * q + r,
        ;
        vstd::arithmetic::div_mod::lemma_fundamental_div_mod_converse(2 * m + d, 2 * d, q, 2 * r + d);
    }
}

pub fn div_round(n: i128, d: i128) -> (r: i128)
    requires
        d > 0,
        n > i128::MIN,
    ensures
        r == nearest(n as int, d as int),
        abs(r as int) <= abs(n as int),
{
    let m: u128 = if n < 0 {
        (-n) as u128
    } else {
        n as u128
    };
    let den: u128 = d as u128;
    let q: u128 = m / den;
    let rest: u128 = m % den;
    proof {
        lemma_nearest_parts(m as int, d as int);
        vstd::arithmetic::div_mod::lemma_fundamental_div_mod(m as int, d as int);
        assert(q <= m && (rest > 0 ==> q + 1 <= m)) by (nonlinear_arith)
            requires
                m == d * q + rest,
                d > 0,
                q >= 0,
                0 <= rest < d,
        ;
    }
    let up: u128 = if rest >= den - rest { q + 1 } else { q };
    let size: i128 = up as i128;
    if n < 0 {
        -size
    } else {
        size
    }
}

pub fn div_even(n: u128, d: u128) -> (r: u128)
    requires
        d > 0,
        n < u128::MAX,
    ensures
        r == nearest_even(n as int, d as int),
{
    let q: u128 = n / d;
    let rest: u128 = n % d;
    proof {
        vstd::arithmetic::div_mod::lemma_fundamental_div_mod(n as int, d as int);
        assert(q <= n) by (nonlinear_arith)
            requires
                n == d * q + rest,
                d > 0,
                q >= 0,
                rest >= 0,
        ;
    }
    if rest > d - rest || (rest == d - rest && q % 2 == 1) {
        q + 1
    } else {
        q
    }
}

/// The whole and the remaining part of `a * x / d`, for a share `x / d` of at most one.
pub fn share(a: u64, x: u128, d: u128) -> (r: (u128, u128))
    requires
        0 < d <= 0x10_0000_0000_0000_0000_0000_0000,
        x <= d,
    ensures
        a * x == r.0 * d + r.1,
        r.1 < d,
        r.0 <= a,
    decreases a,
{
    if a == 0 {
        proof {
            assert(0 * x == 0 * d + 0) by (nonlinear_arith);
        }
        return (0, 0);
    }
    let (q, rest) = share(a / 2, x, d);
    let odd: u128 = if a % 2 == 1 {
        x
    } else {
        0
    };
    let mut whole: u128 = 2 * q;
    let mut left: u128 = 2 * rest;
    let ghost half = a / 2;
    proof {
        assert(2 * (half * x) == (2 * half) * x) by (nonlinear_arith);
        assert(2 * (q * d) == (2 * q) * d) by (nonlinear_arith);
        assert((2 * half + 1) * x == (2 * half) * x + x) by (nonlinear_arith);
        assert(a * x == whole * d + left + odd);
    }
    if left >= d {
        proof {
            assert((whole + 1) * d == whole * d + d) by (nonlinear_arith);
        }
        left = left - d;
        whole = whole + 1;
    }
    left = left + odd;
    if left >= d {
        proof {
            assert((whole + 1) * d == whole * d + d) by (nonlinear_arith);
        }
        left = left - d;
        whole = whole + 1;
    }
    proof {
        assert(whole <= a) by (nonlinear_arith)
            requires
                a * x == whole * d + left,
                0 <= left,
                x <= d,
                0 < d,
                a >= 0,
        ;
    }
    (whole, left)
}

/// The value a share `x / d` of the way from `from` to `to`, to the nearest whole number.
pub open spec fn between(from: int, to: int, x: int, d: int) -> int {
    from + nearest((to - from) * x, d)
}

/// A value part of the way lies between the two ends.
pub proof fn lemma_between(from: int, to: int, x: int, d: int)
    requires
        0 <= x <= d,
        0 < d,
    ensures
        from <= to ==> from <= between(from, to, x, d) <= to,
        to <= from ==> to <= between(from, to, x, d) <= from,
{
    let size = abs(to - from);
    let n = size * x;
    assert(0 <= n <= size * d) by (nonlinear_arith)
        requires
            n == size * x,
            0 <= size,
            0 <= x <= d,
    ;
    lemma_nearest_parts(n, d);
    vstd::arithmetic::div_mod::lemma_fundamental_div_mod(n, d);
    let q = n / d;
    let r = n % d;
    assert(nearest(n, d) <= size) by (nonlinear_arith)
        requires
            n == d * q + r,
            0 <= r < d,
            n <= size * d,
            d > 0,
            nearest(n, d) == q + (if 2 * r >= d {
                1int
            } else {
                0int
            }),
    ;
    if to < from {
        assert((to - from) * x == -n) by (nonlinear_arith)
            requires
                n == size * x,
                size == from - to,
        ;
        if n == 0 {
            assert(nearest(0, d) == 0);
        }
    }
}

pub fn part_way(from: i64, to: i64, x: u128, d: u128) -> (r: i64)
    requires
        0 < d <= 0x10_0000_0000_0000_0000_0000_0000,
        x <= d,
    ensures
        r == between(from as int, to as int, x as int, d as int),
        from <= to ==> from <= r <= to,
        to <= from ==> to <= r <= from,
{
    let rising = from <= to;
    let distance: u64 = if rising {
        (to as i128 - from as i128) as u64
    } else {
        (from as i128 - to as i128) as u64
    };
    let (q, rest) = share(distance, x, d);
    let step: u128 = if rest >= d - rest {
        q + 1
    } else {
        q
    };
    proof {
        let n = distance * x;
        assert(n >= 0) by (nonlinear_arith)
            requires
                n == distance * x,
                distance >= 0,
                x >= 0,
        ;
        vstd::arithmetic::div_mod::lemma_fundamental_div_mod_converse(n, d as int, q as int, rest as int);
        lemma_nearest_parts(n, d as int);
        assert(step == nearest(n, d as int));
        if q == distance {
            assert(rest == 0) by (nonlinear_arith)
                requires
                    distance * x == q * d + rest,
                    q == distance,
                    x <= d,
                    distance >= 0,
                    rest >= 0,
            ;
        }
        assert(step <= distance);
        if !rising {
            assert((to - from) * x == -n) by (nonlinear_arith)
                requires
                    n == distance * x,
                    distance == from - to,
            ;
            if n == 0 {
                assert(nearest(0, d as int) == 0);
            }
        }
    }
    if rising {
        (from as i128 + step as i128) as i64
    } else {
        (from as i128 - step as i128) as i64
    }
}

/// `a * b` as quantities, in range.
pub open spec fn scaled(a: int, b: int) -> int {
    sat(nearest(a * b, ONE as int))
}

pub fn scale_by(a: i64, b: i64) -> (r: i64)
    ensures
        r == scaled(a as int, b as int),
{
    proof {
        assert(-0x4000_0000_0000_0000_0000_0000_0000_0000 <= a * b
            <= 0x4000_0000_0000_0000_0000_0000_0000_0000) by (nonlinear_arith)
            requires
                i64::MIN <= a <= i64::MAX,
                i64::MIN <= b <= i64::MAX,
        ;
    }
    clamp64(div_round(a as i128 * b as i128, ONE as i128))
}

// --- Printing ---

/// The character of one decimal digit.
pub open spec fn digit(d: int) -> char {
    (48 + d) as char
}

/// `n` in decimal, with no leading zeros.
pub open spec fn decimal(n: nat) -> Seq<char>
    decreases n,
{
    if n < 10 {
        seq![digit(n as int)]
    } else {
        decimal(n / 10).push(digit((n % 10) as int))
    }
}

/// The last `places` decimal digits of `n`, leading zeros kept.
pub open spec fn digits(n: nat, places: nat) -> Seq<char>
    decreases places,
{
    if places == 0 {
        Seq::empty()
    } else {
        digits(n / 10, (places - 1) as nat).push(digit((n % 10) as int))
    }
}

/// `n` in decimal, with a minus sign when it is negative.
pub open spec fn signed(n: int) -> Seq<char> {
    if n < 0 {
        seq!['-'] + decimal((-n) as nat)
    } else {
        decimal(n as nat)
    }
}

pub fn push_decimal(out: &mut String, n: u128)
    ensures
        final(out)@ == old(out)@ + decimal(n as nat),
    decreases n,
{
    if n >= 10 {
        push_decimal(out, n / 10);
    }
    let d: u8 = (n % 10) as u8;
    out.push((48u8 + d) as char);
    proof {
        assert(out@ =~= old(out)@ + decimal(n as nat));
    }
}

pub fn push_digits(out: &mut String, n: u128, places: u32)
    ensures
        final(out)@ == old(out)@ + digits(n as nat, places as nat),
    decreases places,
{
    if places > 0 {
        push_digits(out, n / 10, places - 1);
        let d: u8 = (n % 10) as u8;
        out.push((48u8 + d) as char);
    }
    proof {
        assert(out@ =~= old(out)@ + digits(n as nat, places as nat));
    }
}

/// A count as text.
pub fn decimal_text(n: u64) -> (r: String)
    ensures
        r@ == decimal(n as nat),
{
    let mut out = String::new();
    push_decimal(&mut out, n as u128);
    proof {
        assert(out@ =~= decimal(n as nat));
    }
    out
}

/// A whole number as text.
pub fn signed_text(n: i64) -> (r: String)
    ensures
        r@ == signed(n as int),
{
    let mut out = String::new();
    if n < 0 {
        out.push('-');
        push_decimal(&mut out, (-(n as i128)) as u128);
    } else {
        push_decimal(&mut out, n as u128);
    }
    proof {
        assert(out@ =~= signed(n as int));
    }
    out
}

/// A fraction without its trailing zeros; its first digit always stays.
pub open spec fn strip_zeros(s: Seq<char>) -> Seq<char>
    decreases s.len(),
{
    if s.len() > 1 && s.last() == '0' {
        strip_zeros(s.drop_last())
    } else {
        s
    }
}

/// The double-precision number nearest to `n / d`, as a whole number and the power of two that it
/// is divided by: the numerator is doubled until the quotient fills the 53 bits of one.
pub open spec fn double_of(n: int, d: int, scale: int) -> (int, int)
    decreases 0x20_0000_0000_0000 * d - n,
{
    if 0 < n < 0x10_0000_0000_0000 * d {
        double_of(2 * n, d, 2 * scale)
    } else {
        (nearest_even(n, d), scale)
    }
}

/// The double nearest to `n / d` in units of one `places`-th, halves to the even one: what a
/// decimal that lies half way between two units becomes is decided by the double it is held in.
pub open spec fn printed(n: int, d: int, places: int) -> int {
    let (m, scale) = double_of(n, d, 1);
    nearest_even(m * places, scale)
}

/// `n / d` printed to the nearest millionth, trailing zeros dropped and one decimal always kept:
/// `2` reads `2.0`, so that a rate looks like a rate.
pub open spec fn ratio_text(n: int, d: int) -> Seq<char> {
    let millionths = printed(abs(n), d, 1_000_000);
    (if n < 0 {
        seq!['-']
    } else {
        Seq::empty()
    }) + decimal((millionths / 1_000_000) as nat) + seq!['.'] + strip_zeros(
        digits((millionths % 1_000_000) as nat, 6),
    )
}

/// A quantity as a filter argument.
pub open spec fn num_text(v: int) -> Seq<char> {
    ratio_text(v, ONE as int)
}

/// A time in seconds to the millisecond; one before the start reads as the start.
pub open spec fn time_text(v: int) -> Seq<char> {
    let millis = printed(if v < 0 {
        0
    } else {
        v
    }, ONE as int, 1000);
    decimal((millis / 1000) as nat) + seq!['.'] + digits((millis % 1000) as nat, 3)
}

proof fn lemma_strip_zeros(n: nat, places: nat)
    requires
        places > 1,
        n % 10 == 0,
    ensures
        strip_zeros(digits(n, places)) == strip_zeros(digits(n / 10, (places - 1) as nat)),
{
    let s = digits(n, places);
    assert(s.drop_last() =~= digits(n / 10, (places - 1) as nat));
    lemma_digits_len(n, places);
}

proof fn lemma_digits_len(n: nat, places: nat)
    ensures
        digits(n, places).len() == places,
    decreases places,
{
    if places > 0 {
        lemma_digits_len(n / 10, (places - 1) as nat);
    }
}

proof fn lemma_strip_none(n: nat, places: nat)
    requires
        places == 1 || (places > 1 && n % 10 != 0),
    ensures
        strip_zeros(digits(n, places)) == digits(n, places),
{
    lemma_digits_len(n, places);
}

fn push_fraction(out: &mut String, n: u128, places: u32)
    requires
        places >= 1,
    ensures
        final(out)@ == old(out)@ + strip_zeros(digits(n as nat, places as nat)),
    decreases places,
{
    if places > 1 && n % 10 == 0 {
        proof {
            lemma_strip_zeros(n as nat, places as nat);
        }
        push_fraction(out, n / 10, places - 1);
    } else {
        proof {
            lemma_strip_none(n as nat, places as nat);
        }
        push_digits(out, n, places);
    }
}

proof fn lemma_quotient(n: int, d: int)
    requires
        n >= 0,
        d > 0,
    ensures
        nearest_even(n, d) <= n + 1,
        n < 0x20_0000_0000_0000 * d ==> nearest_even(n, d) <= 0x20_0000_0000_0000,
{
    vstd::arithmetic::div_mod::lemma_fundamental_div_mod(n, d);
    let q = n / d;
    assert(q <= n) by (nonlinear_arith)
        requires
            n == d * q + n % d,
            n % d >= 0,
            d > 0,
            n >= 0,
    ;
    if n < 0x20_0000_0000_0000 * d {
        assert(q < 0x20_0000_0000_0000) by (nonlinear_arith)
            requires
                n == d * q + n % d,
                n % d >= 0,
                d > 0,
                n < 0x20_0000_0000_0000 * d,
        ;
    }
}

/// The double nearest to `n / d` in units of one `places`-th.
fn print_as(n: u128, d: u128, places: u128) -> (r: u128)
    requires
        n <= 0x100_0000_0000_0000_0000_0000_0000,
        0 < d <= 0x100_0000_0000_0000_0000,
        0 < places <= 1_000_000,
    ensures
        r == printed(n as int, d as int, places as int),
{
    let mut top: u128 = n;
    let mut scale: u128 = 1;
    while 0 < top && top < 0x10_0000_0000_0000 * d
        invariant
            0 < d <= 0x100_0000_0000_0000_0000,
            top == n || top < 0x20_0000_0000_0000 * d,
            0 < scale,
            scale == 1 || scale <= top,
            double_of(top as int, d as int, scale as int) == double_of(n as int, d as int, 1),
        decreases 0x20_0000_0000_0000 * d - top,
    {
        top = 2 * top;
        scale = 2 * scale;
    }
    let m: u128 = div_even(top, d);
    proof {
        lemma_quotient(top as int, d as int);
        assert(m * places <= 0x100_0000_0000_0000_0000_0000_0001 * 1_000_000) by (nonlinear_arith)
            requires
                m <= 0x100_0000_0000_0000_0000_0000_0001,
                places <= 1_000_000,
        ;
    }
    div_even(m * places, scale)
}

/// `n / d` as a filter argument.
pub fn fmt_ratio(n: i128, d: i128) -> (r: String)
    requires
        0 < d <= 0x100_0000_0000_0000_0000,
        -0x100_0000_0000_0000_0000_0000_0000 <= n <= 0x100_0000_0000_0000_0000_0000_0000,
    ensures
        r@ == ratio_text(n as int, d as int),
{
    let mut out = String::new();
    let size: u128 = if n < 0 {
        (-n) as u128
    } else {
        n as u128
    };
    if n < 0 {
        out.push('-');
    }
    let ghost sign = out@;
    let millionths: u128 = print_as(size, d as u128, 1_000_000);
    push_decimal(&mut out, millionths / 1_000_000);
    out.push('.');
    push_fraction(&mut out, millionths % 1_000_000, 6);
    proof {
        assert(sign =~= if n < 0 {
            seq!['-']
        } else {
            Seq::empty()
        });
        assert(out@ =~= ratio_text(n as int, d as int));
    }
    out
}

/// A quantity as a filter argument: `atempo=2` and `atempo=2.0` are the same to FFmpeg, but only
/// one of them looks like a rate.
pub fn fmt_num(v: i64) -> (r: String)
    ensures
        r@ == num_text(v as int),
{
    fmt_ratio(v as i128, ONE as i128)
}

/// A time as an argument, to the millisecond.
pub fn fmt_time(v: i64) -> (r: String)
    ensures
        r@ == time_text(v as int),
{
    let mut out = String::new();
    let from_start: u128 = if v < 0 {
        0
    } else {
        v as u128
    };
    let millis: u128 = print_as(from_start, ONE as u128, 1000);
    push_decimal(&mut out, millis / 1000);
    out.push('.');
    push_digits(&mut out, millis % 1000, 3);
    proof {
        assert(out@ =~= time_text(v as int));
    }
    out
}

// --- How far a printed number is from what it stands for ---

/// A quotient rounded to the nearest whole number, halves to the even one, is off by at most a
/// half.
pub proof fn lemma_even_near(n: int, d: int)
    requires
        n >= 0,
        d > 0,
    ensures
        nearest_even(n, d) >= 0,
        -d <= 2 * (nearest_even(n, d) * d - n) <= d,
{
    vstd::arithmetic::div_mod::lemma_fundamental_div_mod(n, d);
    let (q, r) = (n / d, n % d);
    assert(q >= 0) by (nonlinear_arith)
        requires
            n >= 0,
            d > 0,
            q == n / d,
    ;
    assert(q * d == n - r && (q + 1) * d == n - r + d) by (nonlinear_arith)
        requires
            n == d * q + r,
    ;
    vstd::arithmetic::div_mod::lemma_mod_bound(n, d);
}

/// A quotient rounded to the nearest whole number is off by at most a half.
pub proof fn lemma_near(n: int, d: int)
    requires
        d > 0,
    ensures
        -d <= 2 * (nearest(n, d) * d - n) <= d,
        n >= 0 ==> nearest(n, d) >= 0,
        n <= 0 ==> nearest(n, d) <= 0,
{
    let m = abs(n);
    lemma_nearest_parts(m, d);
    vstd::arithmetic::div_mod::lemma_fundamental_div_mod(m, d);
    let (q, r) = (m / d, m % d);
    assert(q * d == m - r && (q + 1) * d == m - r + d) by (nonlinear_arith)
        requires
            m == d * q + r,
    ;
    if n < 0 {
        let x = nearest(m, d);
        assert(nearest(n, d) == -x);
        assert((-x) * d == -(x * d)) by (nonlinear_arith);
    }
}

/// Rounding to the nearest whole number keeps order.
pub proof fn lemma_nearest_keeps_order(a: int, b: int, d: int)
    requires
        d > 0,
        a <= b,
    ensures
        nearest(a, d) <= nearest(b, d),
{
    let top = |n: int| (2 * n + d) / (2 * d);
    if a >= 0 {
        vstd::arithmetic::div_mod::lemma_div_is_ordered(2 * a + d, 2 * b + d, 2 * d);
    } else if b < 0 {
        vstd::arithmetic::div_mod::lemma_div_is_ordered(-2 * b + d, -2 * a + d, 2 * d);
    } else {
        lemma_near(a, d);
        lemma_near(b, d);
    }
}

proof fn lemma_double(n: int, d: int, scale: int)
    requires
        n >= 0,
        d > 0,
        scale > 0,
    ensures
        ({
            let (m, s) = double_of(n, d, scale);
            &&& m >= 0
            &&& s > 0
            &&& -(d * scale) <= 2 * (m * d * scale - n * s) <= d * scale
            &&& n > 0 ==> n * s >= 0x10_0000_0000_0000 * d * scale
        }),
    decreases 0x20_0000_0000_0000 * d - n,
{
    let (m, s) = double_of(n, d, scale);
    if 0 < n && n < 0x10_0000_0000_0000 * d {
        lemma_double(2 * n, d, 2 * scale);
        assert(m * d * (2 * scale) == 2 * (m * d * scale)) by (nonlinear_arith);
        assert((2 * n) * s == 2 * (n * s)) by (nonlinear_arith);
        assert(d * (2 * scale) == 2 * (d * scale)) by (nonlinear_arith);
        assert(0x10_0000_0000_0000 * d * (2 * scale) == 2 * (0x10_0000_0000_0000 * d * scale))
            by (nonlinear_arith);
    } else {
        lemma_even_near(n, d);
        let off = m * d - n;
        assert(m * d * scale - n * scale == off * scale) by (nonlinear_arith)
            requires
                off == m * d - n,
        ;
        assert(-(d * scale) <= 2 * (off * scale) <= d * scale) by (nonlinear_arith)
            requires
                -d <= 2 * off <= d,
                scale > 0,
        ;
        if n > 0 {
            assert(n * scale >= 0x10_0000_0000_0000 * d * scale) by (nonlinear_arith)
                requires
                    n >= 0x10_0000_0000_0000 * d,
                    scale > 0,
            ;
        }
    }
}

/// What is printed in units of one `places`-th is off by half a unit, and by what a double is off
/// where the number is large: never by more than a unit in all.
pub proof fn law_print_is_near(n: int, d: int, places: int)
    requires
        0 <= n <= 0x1_0000_0000 * d,
        d > 0,
        0 < places <= 1_000_000,
    ensures
        printed(n, d, places) >= 0,
        -d <= printed(n, d, places) * d - n * places <= d,
        places == 1000 ==> -1001 * d <= 2000 * (printed(n, d, places) * d - n * places) <= 1001 * d,
{
    lemma_double(n, d, 1);
    let (m, s) = double_of(n, d, 1);
    let p = printed(n, d, places);
    assert(m * places >= 0) by (nonlinear_arith)
        requires
            m >= 0,
            places > 0,
    ;
    lemma_even_near(m * places, s);
    assert(m * d * 1 == m * d && d * 1 == d && 0x10_0000_0000_0000 * d * 1 == 0x10_0000_0000_0000 * d);
    if n == 0 {
        assert(double_of(0, d, 1) == (nearest_even(0, d), 1int));
        assert(0int / d == 0 && 0int % d == 0) by (nonlinear_arith)
            requires
                d > 0,
        ;
        assert(m == 0 && s == 1);
        assert(m * places == 0) by (nonlinear_arith)
            requires
                m == 0,
        ;
        assert(p == 0);
        assert(p * d == 0 && n * places == 0) by (nonlinear_arith)
            requires
                p == 0,
                n == 0,
        ;
    } else {
        assert(s >= 0x10_0000) by (nonlinear_arith)
            requires
                n * s >= 0x10_0000_0000_0000 * d,
                0 < n <= 0x1_0000_0000 * d,
                d > 0,
                s > 0,
        ;
        let (a, b, off) = (p * s - m * places, m * d - n * s, p * d - n * places);
        assert(off * s == a * d + b * places) by (nonlinear_arith)
            requires
                a == p * s - m * places,
                b == m * d - n * s,
                off == p * d - n * places,
        ;
        assert(-(s * d) <= 2 * (a * d) <= s * d) by (nonlinear_arith)
            requires
                -s <= 2 * a <= s,
                d > 0,
        ;
        assert(-(places * d) <= 2 * (b * places) <= places * d) by (nonlinear_arith)
            requires
                -d <= 2 * b <= d,
                places > 0,
        ;
        lemma_off(off, s, d, places);
    }
}

proof fn lemma_off(off: int, s: int, d: int, places: int)
    requires
        -(s * d) - places * d <= 2 * (off * s) <= s * d + places * d,
        s >= 0x10_0000,
        d > 0,
        0 < places <= 1_000_000,
    ensures
        -d <= off <= d,
        places == 1000 ==> -1001 * d <= 2000 * off <= 1001 * d,
{
    let (x, y, z) = (s * d, places * d, off * s);
    assert(y <= x && (1000 * places <= s ==> 1000 * y <= x)) by (nonlinear_arith)
        requires
            x == s * d,
            y == places * d,
            places <= s,
            d > 0,
    ;
    assert(-d <= off <= d) by (nonlinear_arith)
        requires
            -2 * x <= 2 * z <= 2 * x,
            x == s * d,
            z == off * s,
            s > 0,
    ;
    if places == 1000 {
        assert(-1001 * d <= 2000 * off <= 1001 * d) by (nonlinear_arith)
            requires
                -1001 * x <= 2000 * z <= 1001 * x,
                x == s * d,
                z == off * s,
                s > 0,
        ;
    }
}

} // verus!
