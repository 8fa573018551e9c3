//! The arithmetic that FFmpeg works a frame's time out with, as far as a speed curve uses it: what
//! an expression looks like, what it comes to, and how fast it grows.

use vstd::prelude::*;
use vstd::string::*;

use crate::number;
use crate::reading;
use crate::reading::Reading;

verus! {

/// An expression in `T`, the time of a frame in seconds.
pub enum Expr {
    /// A decimal number, as it is spelled.
    Number(Seq<char>),
    Time,
    Sum(Box<Expr>, Box<Expr>),
    Difference(Box<Expr>, Box<Expr>),
    Product(Box<Expr>, Box<Expr>),
    Quotient(Box<Expr>, Box<Expr>),
    /// An expression in brackets.
    Group(Box<Expr>),
    /// The natural logarithm.
    Log(Box<Expr>),
    /// The second where `T` is less than the first, else the third.
    Before(Box<Expr>, Box<Expr>, Box<Expr>),
}

/// How an expression is spelled.
pub open spec fn spelled(e: Expr) -> Seq<char>
    decreases e,
{
    match e {
        Expr::Number(s) => s,
        Expr::Time => "T"@,
        Expr::Sum(a, b) => spelled(*a) + "+"@ + spelled(*b),
        Expr::Difference(a, b) => spelled(*a) + "-"@ + spelled(*b),
        Expr::Product(a, b) => spelled(*a) + "*"@ + spelled(*b),
        Expr::Quotient(a, b) => spelled(*a) + "/"@ + spelled(*b),
        Expr::Group(a) => "("@ + spelled(*a) + ")"@,
        Expr::Log(a) => "log("@ + spelled(*a) + ")"@,
        Expr::Before(t, a, b) => "if(lt(T,"@ + spelled(*t) + "),"@ + spelled(*a) + ","@ + spelled(*b)
            + ")"@,
    }
}

/// How tightly the outermost step of an expression binds: sums least, products more, and what
/// stands for itself most.
pub open spec fn binds(e: Expr) -> int {
    match e {
        Expr::Sum(_, _) => 1,
        Expr::Difference(_, _) => 1,
        Expr::Product(_, _) => 2,
        Expr::Quotient(_, _) => 2,
        _ => 3,
    }
}

/// Whether an expression, read back from its spelling, has the same structure: each step binds no
/// looser than the step it is part of, and what is to the right of a sign binds tighter.
pub open spec fn unmistakable(e: Expr) -> bool
    decreases e,
{
    match e {
        Expr::Number(s) => is_number(s),
        Expr::Time => true,
        Expr::Sum(a, b) => unmistakable(*a) && unmistakable(*b) && binds(*b) > 1,
        Expr::Difference(a, b) => unmistakable(*a) && unmistakable(*b) && binds(*b) > 1,
        Expr::Product(a, b) => unmistakable(*a) && unmistakable(*b) && binds(*a) > 1 && binds(*b) > 2,
        Expr::Quotient(a, b) => unmistakable(*a) && unmistakable(*b) && binds(*a) > 1 && binds(*b) > 2,
        Expr::Group(a) => unmistakable(*a),
        Expr::Log(a) => unmistakable(*a),
        Expr::Before(t, a, b) => unmistakable(*t) && unmistakable(*a) && unmistakable(*b),
    }
}

/// Whether a text is a decimal number of a size that can be read to the millionth.
#[verifier::opaque]
pub open spec fn is_number(s: Seq<char>) -> bool {
    reading::reading(s, 6) matches Some(Reading::Value(_))
}

/// What a decimal number comes to, read to the millionth.
#[verifier::opaque]
pub open spec fn worth(s: Seq<char>) -> real {
    match reading::reading(s, 6) {
        Some(Reading::Value(m)) => (m as int as real) / (1_000_000 as real),
        _ => 0 as real,
    }
}

/// What an expression comes to at the time `t`. The logarithm is the caller's.
pub open spec fn value(e: Expr, t: real, ln: spec_fn(real) -> real) -> real
    decreases e,
{
    match e {
        Expr::Number(s) => worth(s),
        Expr::Time => t,
        Expr::Sum(a, b) => value(*a, t, ln) + value(*b, t, ln),
        Expr::Difference(a, b) => value(*a, t, ln) - value(*b, t, ln),
        Expr::Product(a, b) => value(*a, t, ln) * value(*b, t, ln),
        Expr::Quotient(a, b) => value(*a, t, ln) / value(*b, t, ln),
        Expr::Group(a) => value(*a, t, ln),
        Expr::Log(a) => ln(value(*a, t, ln)),
        Expr::Before(bound, a, b) => if t < value(*bound, t, ln) {
            value(*a, t, ln)
        } else {
            value(*b, t, ln)
        },
    }
}

/// How fast an expression grows with `T` at the time `t`, by the rules of differentiation.
pub open spec fn growth(e: Expr, t: real, ln: spec_fn(real) -> real) -> real
    decreases e,
{
    match e {
        Expr::Number(s) => 0 as real,
        Expr::Time => 1 as real,
        Expr::Sum(a, b) => growth(*a, t, ln) + growth(*b, t, ln),
        Expr::Difference(a, b) => growth(*a, t, ln) - growth(*b, t, ln),
        Expr::Product(a, b) => growth(*a, t, ln) * value(*b, t, ln) + value(*a, t, ln) * growth(*b, t, ln),
        Expr::Quotient(a, b) => (growth(*a, t, ln) * value(*b, t, ln) - value(*a, t, ln) * growth(
            *b,
            t,
            ln,
        )) / (value(*b, t, ln) * value(*b, t, ln)),
        Expr::Group(a) => growth(*a, t, ln),
        Expr::Log(a) => growth(*a, t, ln) / value(*a, t, ln),
        Expr::Before(bound, a, b) => if t < value(*bound, t, ln) {
            growth(*a, t, ln)
        } else {
            growth(*b, t, ln)
        },
    }
}

/// Two numbers that are within a millionth of each other.
pub open spec fn near(x: real, y: real) -> bool {
    -1 as real <= (x - y) * 1_000_000 as real <= 1 as real
}

/// What a printed quotient comes to is within a millionth of it.
pub proof fn law_worth_of_a_ratio(n: int, d: int)
    requires
        d > 0,
        -0x1_0000_0000 * d <= n <= 0x1_0000_0000 * d,
    ensures
        is_number(number::ratio_text(n, d)),
        near(worth(number::ratio_text(n, d)), n as real / d as real),
{
    reveal(is_number);
    reveal(worth);
    reading::law_ratios_read_back(n, d);
    let m = (reading::reading(number::ratio_text(n, d), 6)->0)->Value_0 as int;
    let off = m * d - n * 1_000_000;
    let (x, y, z) = (m as real, d as real, n as real);
    assert(off as real == x * y - z * 1_000_000 as real) by (nonlinear_arith)
        requires
            off == m * d - n * 1_000_000,
            x == m as real,
            y == d as real,
            z == n as real,
    ;
    let w = x / 1_000_000 as real;
    let q = z / y;
    assert(-1 as real <= (w - q) * 1_000_000 as real <= 1 as real) by (nonlinear_arith)
        requires
            w * 1_000_000 as real == x,
            q == z / y,
            y > 0 as real,
            -y <= x * y - z * 1_000_000 as real <= y,
    ;
}

} // verus!
