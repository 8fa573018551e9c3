//! What a speed curve does to a clip: how the picture's times grow, how long each piece lasts, and
//! how the sound keeps up.

use vstd::prelude::*;
use vstd::string::*;

use crate::expression;
use crate::expression::Expr;
use crate::number;
use crate::number::ONE;
use crate::ramp;
use crate::ramp::Segment;
use crate::reading;
use crate::reading::Reading;
use crate::tempo;
use crate::text;

verus! {

// --- The picture ---

/// A quantity as a plain number.
pub open spec fn plain(v: int) -> real {
    v as real / ONE as int as real
}

/// A piece whose numbers are all small enough to be printed to the millionth.
pub open spec fn printable(s: Segment) -> bool {
    let (rise, span) = (s.speed_to - s.speed_from, s.to - s.from);
    &&& 0 <= s.from < s.to <= 4_000_000_000_000_000_000
    &&& 0 < s.speed_from <= 4_000_000_000_000_000_000
    &&& 0 < s.speed_to <= 4_000_000_000_000_000_000
    &&& number::abs(rise) <= 0x1_0000_0000 * span
    &&& ramp::flat(s) || span <= 0x1_0000_0000 * number::abs(rise)
}

/// How much the speed changes over a second of a piece.
pub open spec fn slope(s: Segment) -> real {
    (s.speed_to - s.speed_from) as real / (s.to - s.from) as real
}

/// The speed at the time `t` of a piece: it moves evenly from the one at its beginning to the one
/// at its end.
pub open spec fn speed_at(s: Segment, t: real) -> real {
    plain(s.speed_from as int) + slope(s) * (t - plain(s.from as int))
}

/// Which piece a frame at `t` belongs to, from piece `i` on: the first that ends after it, by the
/// end that is printed, or the last of all.
pub open spec fn piece_at(segs: Seq<Segment>, t: real, i: int) -> int
    decreases segs.len() - i,
{
    if i >= segs.len() - 1 || t < expression::worth(number::num_text(segs[i].to as int)) {
        i
    } else {
        piece_at(segs, t, i + 1)
    }
}

/// A size without its sign.
pub open spec fn size(x: real) -> real {
    if x < 0 as real {
        -x
    } else {
        x
    }
}

/// An expression that, in the piece `s` that begins at output time `begin`, has the picture run at
/// the speed of the curve: it grows by one over the speed at every moment, and starts from
/// `begin`. Both hold to what rounding the numbers in it to the millionth does.
pub open spec fn runs_with(
    e: Expr,
    s: Segment,
    begin: real,
    t: real,
    ln: spec_fn(real) -> real,
    speed: real,
    start: real,
    from: real,
) -> bool {
    &&& expression::near(from, plain(s.from as int))
    &&& expression::near(start, begin)
    &&& if ramp::flat(s) {
        &&& expression::near(speed, plain(s.speed_from as int))
        &&& speed != 0 as real ==> expression::growth(e, t, ln) * speed == 1 as real
        &&& speed != 0 as real ==> expression::value(e, t, ln) == start + (t - from) / speed
    } else {
        let k = slope(s);
        &&& size(speed - speed_at(s, t)) * 1_000_000 as real <= 1 as real + size(t - from) + size(k)
        &&& speed != 0 as real && expression::worth(number::num_text(s.speed_from as int)) != 0 as real
            ==> size(expression::growth(e, t, ln) * speed - 1 as real) * 1_000_000 as real <= size(k)
            + size(1 as real / k) + 1 as real
        &&& t == from && ln(1 as real) == 0 as real && expression::worth(
            number::num_text(s.speed_from as int),
        ) != 0 as real ==> expression::value(e, t, ln) == start
    }
}

spec fn flat_tree(s: Segment, offset: int) -> Expr {
    Expr::Sum(
        Box::new(Expr::Number(number::num_text(offset))),
        Box::new(
            Expr::Quotient(
                Box::new(
                    Expr::Group(
                        Box::new(
                            Expr::Difference(
                                Box::new(Expr::Time),
                                Box::new(Expr::Number(number::num_text(s.from as int))),
                            ),
                        ),
                    ),
                ),
                Box::new(Expr::Number(number::num_text(s.speed_from as int))),
            ),
        ),
    )
}

spec fn since_tree(s: Segment) -> Expr {
    Expr::Group(
        Box::new(
            Expr::Difference(
                Box::new(Expr::Time),
                Box::new(Expr::Number(number::num_text(s.from as int))),
            ),
        ),
    )
}

spec fn speed_tree(s: Segment) -> Expr {
    Expr::Group(
        Box::new(
            Expr::Sum(
                Box::new(Expr::Number(number::num_text(s.speed_from as int))),
                Box::new(
                    Expr::Product(
                        Box::new(
                            Expr::Number(ramp::slope_text(s.speed_to - s.speed_from, s.to - s.from)),
                        ),
                        Box::new(since_tree(s)),
                    ),
                ),
            ),
        ),
    )
}

spec fn sloped_tree(s: Segment, offset: int) -> Expr {
    Expr::Sum(
        Box::new(Expr::Number(number::num_text(offset))),
        Box::new(
            Expr::Product(
                Box::new(Expr::Number(ramp::inverse_text(s.speed_to - s.speed_from, s.to - s.from))),
                Box::new(
                    Expr::Log(
                        Box::new(
                            Expr::Quotient(
                                Box::new(speed_tree(s)),
                                Box::new(Expr::Number(number::num_text(s.speed_from as int))),
                            ),
                        ),
                    ),
                ),
            ),
        ),
    )
}

spec fn branch_tree(s: Segment, offset: int) -> Expr {
    if ramp::flat(s) {
        flat_tree(s, offset)
    } else {
        sloped_tree(s, offset)
    }
}

spec fn tree(segs: Seq<Segment>, logs: Seq<i64>, i: int) -> Expr
    decreases segs.len() - i,
{
    let own = branch_tree(segs[i], number::sat(ramp::elapsed(segs, logs, i)));
    if i >= segs.len() - 1 {
        own
    } else {
        Expr::Before(
            Box::new(Expr::Number(number::num_text(segs[i].to as int))),
            Box::new(own),
            Box::new(tree(segs, logs, i + 1)),
        )
    }
}

proof fn lemma_signs()
    ensures
        "+(T-"@ == "+"@ + "("@ + "T"@ + "-"@,
        ")/"@ == ")"@ + "/"@,
        "*log(("@ == "*"@ + "log("@ + "("@,
        "*(T-"@ == "*"@ + "("@ + "T"@ + "-"@,
        "))/"@ == ")"@ + ")"@ + "/"@,
{
    reveal_strlit("+(T-");
    reveal_strlit("+");
    reveal_strlit("(");
    reveal_strlit("T");
    reveal_strlit("-");
    reveal_strlit(")/");
    reveal_strlit(")");
    reveal_strlit("/");
    reveal_strlit("*log((");
    reveal_strlit("*");
    reveal_strlit("log(");
    reveal_strlit("*(T-");
    reveal_strlit("))/");
    assert("+(T-"@ =~= "+"@ + "("@ + "T"@ + "-"@);
    assert(")/"@ =~= ")"@ + "/"@);
    assert("*log(("@ =~= "*"@ + "log("@ + "("@);
    assert("*(T-"@ =~= "*"@ + "("@ + "T"@ + "-"@);
    assert("))/"@ =~= ")"@ + ")"@ + "/"@);
}

proof fn lemma_number(v: int)
    requires
        -4_000_000_000_000_000_000 <= v <= 4_000_000_000_000_000_000,
    ensures
        expression::is_number(number::num_text(v)),
        expression::near(expression::worth(number::num_text(v)), plain(v)),
{
    expression::law_worth_of_a_ratio(v, ONE as int);
}

proof fn lemma_slopes(s: Segment)
    requires
        printable(s),
        !ramp::flat(s),
    ensures
        ({
            let (rise, span) = (s.speed_to - s.speed_from, s.to - s.from);
            let (k, c) = (ramp::slope_text(rise, span), ramp::inverse_text(rise, span));
            &&& expression::is_number(k)
            &&& expression::is_number(c)
            &&& expression::near(expression::worth(k), slope(s))
            &&& expression::near(expression::worth(c), 1 as real / slope(s))
            &&& slope(s) != 0 as real
        }),
{
    let (rise, span) = (s.speed_to - s.speed_from, s.to - s.from);
    expression::law_worth_of_a_ratio(rise, span);
    let (x, y) = (rise as real, span as real);
    lemma_inverse(x, y);
    if rise > 0 {
        expression::law_worth_of_a_ratio(span, rise);
    } else {
        expression::law_worth_of_a_ratio(-span, -rise);
        lemma_both_signs(y, x);
    }
}

/// A small factor makes a small part of what it multiplies.
proof fn lemma_small_part(d: real, x: real)
    by (nonlinear_arith)
    requires
        -1 as real <= d * 1_000_000 as real <= 1 as real,
        x >= 0 as real,
    ensures
        -x <= (d * x) * 1_000_000 as real <= x,
{
}

proof fn lemma_small_part_of(d: real, x: real)
    requires
        -1 as real <= d * 1_000_000 as real <= 1 as real,
    ensures
        -size(x) <= (d * x) * 1_000_000 as real <= size(x),
{
    if x >= 0 as real {
        lemma_small_part(d, x);
    } else {
        lemma_small_part(d, -x);
        lemma_other_sign(d, x);
    }
}

proof fn lemma_other_sign(d: real, x: real)
    by (nonlinear_arith)
    ensures
        d * (-x) == -(d * x),
{
}

/// Dividing and multiplying again.
proof fn lemma_divided(z: real, y: real)
    by (nonlinear_arith)
    requires
        y != 0 as real,
    ensures
        (z / y) * y == z,
{
}

proof fn lemma_same_factor(x: real, y: real, a: real)
    by (nonlinear_arith)
    requires
        a != 0 as real,
        x * a == y * a,
    ensures
        x == y,
{
}

proof fn lemma_regroup(x: real, y: real, z: real)
    by (nonlinear_arith)
    ensures
        x * (y * z) == (x * y) * z,
        x * y == y * x,
{
}

proof fn lemma_product_of_sums(c: real, k: real, one: real, true_k: real)
    by (nonlinear_arith)
    ensures
        c * k == one * true_k + (c - one) * true_k + one * (k - true_k) + (c - one) * (k - true_k),
{
}

proof fn lemma_line(a: real, k: real, f: real, s0: real, true_k: real, f0: real, t: real)
    by (nonlinear_arith)
    ensures
        a + k * (t - f) - (s0 + true_k * (t - f0)) == (a - s0) + (k - true_k) * (t - f) - true_k * (f - f0),
{
}

proof fn lemma_inverse(x: real, y: real)
    requires
        x != 0 as real,
        y != 0 as real,
    ensures
        x / y != 0 as real,
        1 as real / (x / y) == y / x,
{
    let q = x / y;
    lemma_divided(x, y);
    if q == 0 as real {
        assert(q * y == 0 as real) by {
            lemma_regroup(q, y, y);
        }
    }
    let (i, r) = (1 as real / q, y / x);
    lemma_divided(1 as real, q);
    lemma_divided(y, x);
    // r * q * x == r * (q * x), and q * y == x.
    lemma_regroup(r, q, y);
    lemma_regroup(r, x, y);
    assert((r * q) * y == 1 as real * y);
    lemma_same_factor(r * q, 1 as real, y);
    lemma_same_factor(r, i, q);
}

proof fn lemma_both_signs(y: real, x: real)
    requires
        x != 0 as real,
    ensures
        (-y) / (-x) == y / x,
{
    let (q, r) = ((-y) / (-x), y / x);
    lemma_divided(-y, -x);
    lemma_divided(y, x);
    lemma_other_sign(q, x);
    lemma_same_factor(q, r, x);
}

proof fn lemma_flat_spelling(s: Segment, offset: int)
    requires
        printable(s),
        ramp::flat(s),
        -4_000_000_000_000_000_000 <= offset <= 4_000_000_000_000_000_000,
    ensures
        expression::spelled(flat_tree(s, offset)) == ramp::branch_text(s, offset),
        expression::unmistakable(flat_tree(s, offset)),
{
    lemma_number(offset);
    lemma_number(s.from as int);
    lemma_number(s.speed_from as int);
    lemma_signs();
    reveal_with_fuel(expression::spelled, 6);
    reveal_with_fuel(expression::unmistakable, 6);
    let (o, f, v) = (
        number::num_text(offset),
        number::num_text(s.from as int),
        number::num_text(s.speed_from as int),
    );
    assert(o + "+"@ + ("("@ + ("T"@ + "-"@ + f) + ")"@ + "/"@ + v) =~= o + ("+"@ + "("@ + "T"@ + "-"@) + f
        + (")"@ + "/"@) + v);
}

proof fn lemma_sloped_spelling(s: Segment, offset: int)
    requires
        printable(s),
        !ramp::flat(s),
        -4_000_000_000_000_000_000 <= offset <= 4_000_000_000_000_000_000,
    ensures
        expression::spelled(sloped_tree(s, offset)) == ramp::branch_text(s, offset),
        expression::unmistakable(sloped_tree(s, offset)),
{
    lemma_number(offset);
    lemma_number(s.from as int);
    lemma_number(s.speed_from as int);
    lemma_slopes(s);
    lemma_signs();
    reveal_with_fuel(expression::spelled, 10);
    reveal_with_fuel(expression::unmistakable, 10);
    let (rise, span) = (s.speed_to - s.speed_from, s.to - s.from);
    let (k, c) = (ramp::slope_text(rise, span), ramp::inverse_text(rise, span));
    let (o, f, v) = (
        number::num_text(offset),
        number::num_text(s.from as int),
        number::num_text(s.speed_from as int),
    );
    let since = "("@ + ("T"@ + "-"@ + f) + ")"@;
    let speed = "("@ + (v + "+"@ + (k + "*"@ + since)) + ")"@;
    lemma_speed_spelling(s);
    lemma_sloped_pieces(o, c, v, k, f);
    assert(expression::spelled(sloped_tree(s, offset)) == o + "+"@ + (c + "*"@ + ("log("@ + (speed + "/"@
        + v) + ")"@)));
}

proof fn lemma_speed_spelling(s: Segment)
    requires
        printable(s),
        !ramp::flat(s),
    ensures
        ({
            let k = ramp::slope_text(s.speed_to - s.speed_from, s.to - s.from);
            let v = number::num_text(s.speed_from as int);
            let since = "("@ + ("T"@ + "-"@ + number::num_text(s.from as int)) + ")"@;
            &&& expression::spelled(speed_tree(s)) == "("@ + (v + "+"@ + (k + "*"@ + since)) + ")"@
            &&& expression::unmistakable(speed_tree(s))
        }),
{
    lemma_number(s.from as int);
    lemma_number(s.speed_from as int);
    lemma_slopes(s);
    reveal_with_fuel(expression::spelled, 7);
    reveal_with_fuel(expression::unmistakable, 7);
}

proof fn lemma_sloped_pieces(o: Seq<char>, c: Seq<char>, v: Seq<char>, k: Seq<char>, f: Seq<char>)
    ensures
        ({
            let since = "("@ + ("T"@ + "-"@ + f) + ")"@;
            let speed = "("@ + (v + "+"@ + (k + "*"@ + since)) + ")"@;
            o + "+"@ + (c + "*"@ + ("log("@ + (speed + "/"@ + v) + ")"@)) == o + "+"@ + c + "*log(("@ + v
                + "+"@ + k + "*(T-"@ + f + "))/"@ + v + ")"@
        }),
{
    lemma_signs();
    lemma_bracket("("@, "T"@, "-"@, f, ")"@, "*"@, k, v, "+"@);
    lemma_long(o, "+"@, c, "*"@, "log("@, "("@, v, k, "T"@, "-"@, f, ")"@, "/"@);
}

proof fn lemma_bracket(
    open_: Seq<char>,
    time: Seq<char>,
    less: Seq<char>,
    f: Seq<char>,
    shut: Seq<char>,
    by_: Seq<char>,
    k: Seq<char>,
    v: Seq<char>,
    more: Seq<char>,
)
    ensures
        open_ + (v + more + (k + by_ + (open_ + (time + less + f) + shut))) + shut == open_ + v + more + k
            + (by_ + open_ + time + less) + f + shut + shut,
{
    assert(open_ + (v + more + (k + by_ + (open_ + (time + less + f) + shut))) + shut =~= open_ + v + more
        + k + (by_ + open_ + time + less) + f + shut + shut);
}

proof fn lemma_long(
    o: Seq<char>,
    more: Seq<char>,
    c: Seq<char>,
    by_: Seq<char>,
    log: Seq<char>,
    open_: Seq<char>,
    v: Seq<char>,
    k: Seq<char>,
    time: Seq<char>,
    less: Seq<char>,
    f: Seq<char>,
    shut: Seq<char>,
    over: Seq<char>,
)
    ensures
        o + more + (c + by_ + (log + ((open_ + v + more + k + (by_ + open_ + time + less) + f + shut + shut)
            + over + v) + shut)) == o + more + c + (by_ + log + open_) + v + more + k + (by_ + open_ + time
            + less) + f + (shut + shut + over) + v + shut,
{
    let inner = v + more + k + (by_ + open_ + time + less) + f;
    assert(open_ + v + more + k + (by_ + open_ + time + less) + f + shut + shut =~= open_ + inner + (shut
        + shut));
    assert(o + more + c + (by_ + log + open_) + v + more + k + (by_ + open_ + time + less) + f + (shut + shut
        + over) + v + shut =~= o + more + c + (by_ + log + open_) + inner + (shut + shut + over) + v + shut);
    let tail = shut + shut;
    assert(o + more + (c + by_ + (log + ((open_ + inner + tail) + over + v) + shut)) =~= o + more + c + (by_
        + log + open_) + inner + (tail + over) + v + shut);
}

proof fn lemma_flat_runs(s: Segment, offset: int, t: real, ln: spec_fn(real) -> real) -> (r: (
    real,
    real,
    real,
))
    requires
        printable(s),
        ramp::flat(s),
        -4_000_000_000_000_000_000 <= offset <= 4_000_000_000_000_000_000,
    ensures
        runs_with(flat_tree(s, offset), s, plain(offset), t, ln, r.0, r.1, r.2),
{
    lemma_number(offset);
    lemma_number(s.from as int);
    lemma_number(s.speed_from as int);
    let e = flat_tree(s, offset);
    let o = expression::worth(number::num_text(offset));
    let f = expression::worth(number::num_text(s.from as int));
    let a = expression::worth(number::num_text(s.speed_from as int));
    let g = expression::growth(e, t, ln);
    let d = (1 as real * a - (t - f) * 0 as real) / (a * a);
    assert(g == 0 as real + d) by {
        reveal_with_fuel(expression::value, 6);
        reveal_with_fuel(expression::growth, 6);
    }
    assert(expression::value(e, t, ln) == o + (t - f) / a) by {
        reveal_with_fuel(expression::value, 6);
    }
    if a != 0 as real {
        lemma_nothing(t - f, a);
        lemma_square(a);
        lemma_divided(a, a * a);
        lemma_regroup(d, a, a);
        lemma_same_factor(d * a, 1 as real, a);
    }
    (a, o, f)
}

proof fn lemma_nothing(x: real, a: real)
    by (nonlinear_arith)
    ensures
        1 as real * a - x * 0 as real == a,
        x * 0 as real == 0 as real,
        0 as real * x == 0 as real,
        1 as real * a == a,
        a * 1 as real == a,
{
}

proof fn lemma_square(a: real)
    by (nonlinear_arith)
    requires
        a != 0 as real,
    ensures
        a * a != 0 as real,
{
}

/// The growth of `c` logarithms of `p / a`, where `p` grows by `k`.
proof fn lemma_growth_of_log(c: real, k: real, p: real, a: real)
    requires
        p != 0 as real,
        a != 0 as real,
    ensures
        (c * (((k * a - p * 0 as real) / (a * a)) / (p / a))) * p == c * k,
{
    let d = (k * a - p * 0 as real) / (a * a);
    let q = p / a;
    lemma_nothing(p, k * a);
    lemma_square(a);
    lemma_divided(k * a, a * a);
    lemma_regroup(d, a, a);
    lemma_same_factor(d * a, k, a);
    lemma_divided(p, a);
    if q == 0 as real {
        lemma_nothing(a, a);
    }
    lemma_divided(d, q);
    let r = d / q;
    lemma_regroup(r, q, a);
    assert(r * p == k);
    lemma_regroup(c, r, p);
}

proof fn lemma_speed_near(a: real, k: real, f: real, s0: real, true_k: real, f0: real, t: real)
    requires
        expression::near(a, s0),
        expression::near(k, true_k),
        expression::near(f, f0),
    ensures
        size(a + k * (t - f) - (s0 + true_k * (t - f0))) * 1_000_000 as real <= 1 as real + size(t - f) + size(
            true_k,
        ),
{
    lemma_line(a, k, f, s0, true_k, f0, t);
    lemma_small_part_of(k - true_k, t - f);
    lemma_small_part_of(f - f0, true_k);
    lemma_regroup(f - f0, true_k, 1 as real);
}

/// A slope and its inverse, each rounded, still make about one.
proof fn lemma_unit(c: real, k: real, true_k: real)
    requires
        true_k != 0 as real,
        expression::near(k, true_k),
        expression::near(c, 1 as real / true_k),
    ensures
        size(c * k - 1 as real) * 1_000_000 as real <= size(true_k) + size(1 as real / true_k) + 1 as real,
{
    let one = 1 as real / true_k;
    lemma_divided(1 as real, true_k);
    lemma_product_of_sums(c, k, one, true_k);
    lemma_small_part_of(c - one, true_k);
    lemma_small_part_of(k - true_k, one);
    lemma_regroup(k - true_k, one, 1 as real);
    lemma_small_part_of(c - one, k - true_k);
}

proof fn lemma_sloped_value(s: Segment, offset: int, t: real, ln: spec_fn(real) -> real)
    ensures
        ({
            let (rise, span) = (s.speed_to - s.speed_from, s.to - s.from);
            let o = expression::worth(number::num_text(offset));
            let f = expression::worth(number::num_text(s.from as int));
            let a = expression::worth(number::num_text(s.speed_from as int));
            let k = expression::worth(ramp::slope_text(rise, span));
            let c = expression::worth(ramp::inverse_text(rise, span));
            let p = a + k * (t - f);
            &&& expression::value(sloped_tree(s, offset), t, ln) == o + c * ln(p / a)
            &&& expression::growth(sloped_tree(s, offset), t, ln) == c * (((k * a - p * 0 as real) / (a * a))
                / (p / a))
        }),
{
    let (rise, span) = (s.speed_to - s.speed_from, s.to - s.from);
    let f = expression::worth(number::num_text(s.from as int));
    let a = expression::worth(number::num_text(s.speed_from as int));
    let k = expression::worth(ramp::slope_text(rise, span));
    let c = expression::worth(ramp::inverse_text(rise, span));
    let p = a + k * (t - f);
    assert(expression::value(since_tree(s), t, ln) == t - f && expression::growth(since_tree(s), t, ln)
        == 1 as real) by {
        reveal_with_fuel(expression::value, 4);
        reveal_with_fuel(expression::growth, 4);
    }
    lemma_nothing(t - f, k);
    assert(expression::value(speed_tree(s), t, ln) == p && expression::growth(speed_tree(s), t, ln) == k) by {
        reveal_with_fuel(expression::value, 5);
        reveal_with_fuel(expression::growth, 5);
    }
    lemma_nothing(ln(p / a), k);
    reveal_with_fuel(expression::value, 5);
    reveal_with_fuel(expression::growth, 5);
}

proof fn lemma_sloped_runs(s: Segment, offset: int, t: real, ln: spec_fn(real) -> real) -> (r: (
    real,
    real,
    real,
))
    requires
        printable(s),
        !ramp::flat(s),
        -4_000_000_000_000_000_000 <= offset <= 4_000_000_000_000_000_000,
    ensures
        runs_with(sloped_tree(s, offset), s, plain(offset), t, ln, r.0, r.1, r.2),
{
    lemma_number(offset);
    lemma_number(s.from as int);
    lemma_number(s.speed_from as int);
    lemma_slopes(s);
    lemma_sloped_value(s, offset, t, ln);
    let (rise, span) = (s.speed_to - s.speed_from, s.to - s.from);
    let o = expression::worth(number::num_text(offset));
    let f = expression::worth(number::num_text(s.from as int));
    let a = expression::worth(number::num_text(s.speed_from as int));
    let k = expression::worth(ramp::slope_text(rise, span));
    let c = expression::worth(ramp::inverse_text(rise, span));
    let p = a + k * (t - f);
    lemma_speed_near(a, k, f, plain(s.speed_from as int), slope(s), plain(s.from as int), t);
    if p != 0 as real && a != 0 as real {
        lemma_growth_of_log(c, k, p, a);
        lemma_unit(c, k, slope(s));
    }
    if t == f && a != 0 as real {
        lemma_nothing(k, a);
        lemma_divided(a, a);
        lemma_same_factor(a / a, 1 as real, a);
        lemma_nothing(c, c);
    }
    (p, o, f)
}

/// Curves whose every number can be printed to the millionth.
pub open spec fn all_printable(segs: Seq<Segment>, logs: Seq<i64>) -> bool {
    forall|i: int| 0 <= i < segs.len() ==> printable(#[trigger] segs[i]) && -4_000_000_000_000_000_000
        <= ramp::elapsed(segs, logs, i) <= 4_000_000_000_000_000_000
}

proof fn lemma_tree_spelling(segs: Seq<Segment>, logs: Seq<i64>, i: int)
    requires
        0 <= i < segs.len(),
        all_printable(segs, logs),
    ensures
        expression::spelled(tree(segs, logs, i)) == ramp::nested(segs, logs, i),
        expression::unmistakable(tree(segs, logs, i)),
    decreases segs.len() - i,
{
    let s = segs[i];
    let offset = ramp::elapsed(segs, logs, i);
    if ramp::flat(s) {
        lemma_flat_spelling(s, offset);
    } else {
        lemma_sloped_spelling(s, offset);
    }
    if i < segs.len() - 1 {
        lemma_number(s.to as int);
        lemma_tree_spelling(segs, logs, i + 1);
        let own = branch_tree(s, offset);
        let bound = Expr::Number(number::num_text(s.to as int));
        assert(expression::spelled(bound) == number::num_text(s.to as int));
        assert(expression::unmistakable(bound));
    }
}

/// What holds of an expression in the piece that a frame belongs to.
pub open spec fn runs_at(
    e: Expr,
    segs: Seq<Segment>,
    logs: Seq<i64>,
    t: real,
    ln: spec_fn(real) -> real,
) -> bool {
    let i = piece_at(segs, t, 0);
    exists|speed: real, start: real, from: real| #[trigger]
        runs_with(e, segs[i], plain(ramp::elapsed(segs, logs, i)), t, ln, speed, start, from)
}

proof fn lemma_tree_runs(
    segs: Seq<Segment>,
    logs: Seq<i64>,
    i: int,
    t: real,
    ln: spec_fn(real) -> real,
) -> (r: (real, real, real))
    requires
        0 <= i < segs.len(),
        all_printable(segs, logs),
    ensures
        0 <= piece_at(segs, t, i) < segs.len(),
        runs_with(
            tree(segs, logs, i),
            segs[piece_at(segs, t, i)],
            plain(ramp::elapsed(segs, logs, piece_at(segs, t, i))),
            t,
            ln,
            r.0,
            r.1,
            r.2,
        ),
    decreases segs.len() - i,
{
    let s = segs[i];
    let offset = ramp::elapsed(segs, logs, i);
    let own = branch_tree(s, offset);
    let bound = Expr::Number(number::num_text(s.to as int));
    let end = expression::worth(number::num_text(s.to as int));
    assert(expression::value(bound, t, ln) == end);
    if i >= segs.len() - 1 || t < end {
        let r = if ramp::flat(s) {
            lemma_flat_runs(s, offset, t, ln)
        } else {
            lemma_sloped_runs(s, offset, t, ln)
        };
        assert(expression::value(tree(segs, logs, i), t, ln) == expression::value(own, t, ln));
        assert(expression::growth(tree(segs, logs, i), t, ln) == expression::growth(own, t, ln));
        r
    } else {
        let r = lemma_tree_runs(segs, logs, i + 1, t, ln);
        let rest = tree(segs, logs, i + 1);
        assert(expression::value(tree(segs, logs, i), t, ln) == expression::value(rest, t, ln));
        assert(expression::growth(tree(segs, logs, i), t, ln) == expression::growth(rest, t, ln));
        r
    }
}

/// The expression that gives each frame its new time has the picture run at the speed of the
/// curve. Read as arithmetic it grows, at every moment and in the piece that the moment belongs
/// to, by one over the speed there, and each piece starts from where the pieces before it end.
pub proof fn law_picture_runs_at_the_curves_speed(segs: Seq<Segment>, logs: Seq<i64>)
    requires
        segs.len() > 0,
        all_printable(segs, logs),
    ensures
        exists|e: Expr| #[trigger]
            expression::spelled(e) == ramp::nested(segs, logs, 0) && expression::unmistakable(e) && forall|
                t: real,
                ln: spec_fn(real) -> real,
            |
                #[trigger] runs_at(e, segs, logs, t, ln),
{
    let e = tree(segs, logs, 0);
    lemma_tree_spelling(segs, logs, 0);
    assert forall|t: real, ln: spec_fn(real) -> real| #[trigger] runs_at(e, segs, logs, t, ln) by {
        let r = lemma_tree_runs(segs, logs, 0, t, ln);
    }
}

// --- How long it lasts ---

/// A piece lasts as long as its speeds have it last: no shorter than at the faster of its two
/// speeds all through and no longer than at the slower, to the rounding of a billionth. The
/// logarithm of the speeds' ratio comes from the caller; it lies where the logarithm of any ratio
/// lies.
pub proof fn law_a_piece_lasts_as_its_speeds_have_it(s: Segment, log: int)
    requires
        s.from < s.to,
        0 < s.speed_from,
        0 < s.speed_to,
        log * s.speed_from <= (s.speed_to - s.speed_from) * 1_000_000_000_000_000 <= log * s.speed_to,
        ramp::lasts(s, log) < i64::MAX,
    ensures
        ({
            let (slow, fast) = if s.speed_from < s.speed_to {
                (s.speed_from as int, s.speed_to as int)
            } else {
                (s.speed_to as int, s.speed_from as int)
            };
            let all = 2 * (s.to - s.from) * 1_000_000_000;
            all - fast <= 2 * ramp::lasts(s, log) * fast && 2 * ramp::lasts(s, log) * slow <= all + slow
        }),
{
    let (a, b) = (s.speed_from as int, s.speed_to as int);
    let (rise, span) = (b - a, s.to - s.from);
    let x = ramp::lasts(s, log);
    if ramp::flat(s) {
        number::lemma_near(span * ONE, a);
        assert(span * ONE >= 0);
        lemma_wider(x, a, if a < b { b } else { a }, if a < b { a } else { b }, span * 1_000_000_000);
    } else {
        let d = if rise > 0 {
            rise * 1_000_000
        } else {
            -rise * 1_000_000
        };
        let n = if rise > 0 {
            span * log
        } else {
            -(span * log)
        };
        number::lemma_near(n, d);
        lemma_log_sign(rise, log, a, b);
        assert(n >= 0) by (nonlinear_arith)
            requires
                n == (if rise > 0 {
                    span * log
                } else {
                    -(span * log)
                }),
                span > 0,
                rise > 0 ==> log >= 0,
                rise <= 0 ==> log <= 0,
        ;
        let r = number::nearest(n, d);
        assert(x == r);
        let (fast, slow) = if rise > 0 {
            (b, a)
        } else {
            (a, b)
        };
        let up = if rise > 0 {
            log
        } else {
            -log
        };
        let size = if rise > 0 {
            rise
        } else {
            -rise
        };
        assert(up * fast >= size * 1_000_000_000_000_000 && up * slow <= size * 1_000_000_000_000_000)
            by (nonlinear_arith)
            requires
                log * a <= rise * 1_000_000_000_000_000 <= log * b,
                rise > 0 ==> up == log && size == rise && fast == b && slow == a,
                rise <= 0 ==> up == -log && size == -rise && fast == a && slow == b,
        ;
        assert(n == span * up) by (nonlinear_arith)
            requires
                n == (if rise > 0 {
                    span * log
                } else {
                    -(span * log)
                }),
                up == (if rise > 0 {
                    log
                } else {
                    -log
                }),
        ;
        lemma_lasts_between(x, n, d, span, up, size, fast, slow);
    }
}

proof fn lemma_log_sign(rise: int, log: int, a: int, b: int)
    requires
        0 < a,
        0 < b,
        rise != 0,
        log * a <= rise * 1_000_000_000_000_000 <= log * b,
    ensures
        rise > 0 ==> log > 0,
        rise < 0 ==> log < 0,
{
    if rise > 0 && log <= 0 {
        assert(log * b <= 0) by (nonlinear_arith)
            requires
                log <= 0,
                b > 0,
        ;
    }
    if rise < 0 && log >= 0 {
        assert(log * a >= 0) by (nonlinear_arith)
            requires
                log >= 0,
                a > 0,
        ;
    }
}

proof fn lemma_wider(x: int, a: int, fast: int, slow: int, all: int)
    requires
        0 < slow <= a <= fast,
        -a <= 2 * (x * a - all) <= a,
        x >= 0,
        all >= 0,
    ensures
        2 * all - fast <= 2 * x * fast,
        2 * x * slow <= 2 * all + slow,
{
    let (df, ds) = (fast - a, a - slow);
    assert(x * fast == x * a + x * df && x * slow == x * a - x * ds) by (nonlinear_arith)
        requires
            df == fast - a,
            ds == a - slow,
    ;
    assert(x * df >= 0) by (nonlinear_arith)
        requires
            x >= 0,
            df >= 0,
    ;
    assert(2 * x * fast == 2 * (x * fast) && 2 * x * slow == 2 * (x * slow)) by (nonlinear_arith);
    if x >= 1 {
        assert(x * ds >= ds) by (nonlinear_arith)
            requires
                x >= 1,
                ds >= 0,
        ;
    } else {
        assert(x * a == 0 && x * slow == 0 && x * ds == 0) by (nonlinear_arith)
            requires
                x == 0,
        ;
    }
}

proof fn lemma_lasts_between(x: int, n: int, d: int, span: int, up: int, size: int, fast: int, slow: int)
    requires
        -d <= 2 * (x * d - n) <= d,
        d == size * 1_000_000,
        size > 0,
        n == span * up,
        span > 0,
        0 < slow,
        0 < fast,
        up * fast >= size * 1_000_000_000_000_000,
        up * slow <= size * 1_000_000_000_000_000,
    ensures
        2 * span * 1_000_000_000 - fast <= 2 * x * fast,
        2 * x * slow <= 2 * span * 1_000_000_000 + slow,
{
    let whole = span * 1_000_000_000;
    assert(n * fast >= whole * d) by (nonlinear_arith)
        requires
            n == span * up,
            up * fast >= size * 1_000_000_000_000_000,
            span > 0,
            whole == span * 1_000_000_000,
            d == size * 1_000_000,
    ;
    assert(n * slow <= whole * d) by (nonlinear_arith)
        requires
            n == span * up,
            up * slow <= size * 1_000_000_000_000_000,
            span > 0,
            whole == span * 1_000_000_000,
            d == size * 1_000_000,
    ;
    let off = 2 * (x * d - n);
    assert(2 * x * fast * d == 2 * (n * fast) + off * fast) by (nonlinear_arith)
        requires
            off == 2 * (x * d - n),
    ;
    assert(2 * x * slow * d == 2 * (n * slow) + off * slow) by (nonlinear_arith)
        requires
            off == 2 * (x * d - n),
    ;
    assert(off * fast >= -(d * fast)) by (nonlinear_arith)
        requires
            off >= -d,
            fast > 0,
    ;
    assert(off * slow <= d * slow) by (nonlinear_arith)
        requires
            off <= d,
            slow > 0,
    ;
    let (p, q) = (2 * x * fast, 2 * x * slow);
    assert(p >= 2 * whole - fast) by (nonlinear_arith)
        requires
            p * d >= 2 * (whole * d) - d * fast,
            d > 0,
    ;
    assert(q <= 2 * whole + slow) by (nonlinear_arith)
        requires
            q * d <= 2 * (whole * d) + d * slow,
            d > 0,
    ;
    assert(2 * span * 1_000_000_000 == 2 * whole);
}

/// The pieces follow one another without a gap: the first begins at nothing, each begins where
/// the one before it ends, and the clip is as long as all of them.
pub proof fn law_pieces_follow_one_another(segs: Seq<Segment>, logs: Seq<i64>, k: int)
    requires
        0 <= k < segs.len(),
    ensures
        ramp::elapsed(segs, logs, 0) == 0,
        k < logs.len() ==> ramp::elapsed(segs, logs, k + 1) == ramp::elapsed(segs, logs, k) + ramp::lasts(
            segs[k],
            logs[k] as int,
        ),
        0 <= ramp::elapsed(segs, logs, segs.len() as int) <= i64::MAX ==> ramp::length(segs, logs)
            == ramp::elapsed(segs, logs, segs.len() as int),
{
}

// --- The sound ---

/// The slowest and fastest speeds bound every piece's, and each is some piece's own.
pub proof fn law_speed_bounds_are_tight(segs: Seq<Segment>)
    requires
        segs.len() > 0,
        forall|i: int| 0 <= i < segs.len() ==> (#[trigger] segs[i]).speed_from > 0 && segs[i].speed_to > 0,
    ensures
        forall|i: int|
            0 <= i < segs.len() ==> ramp::slowest(segs) <= (#[trigger] segs[i]).speed_from
                <= ramp::fastest(segs) && ramp::slowest(segs) <= segs[i].speed_to <= ramp::fastest(segs),
        exists|i: int|
            0 <= i < segs.len() && (ramp::slowest(segs) == (#[trigger] segs[i]).speed_from
                || ramp::slowest(segs) == segs[i].speed_to),
        exists|i: int|
            0 <= i < segs.len() && (ramp::fastest(segs) == (#[trigger] segs[i]).speed_from
                || ramp::fastest(segs) == segs[i].speed_to),
    decreases segs.len(),
{
    let (before, n) = (segs.drop_last(), segs.len() - 1);
    assert(segs[n].speed_from > 0);
    if n > 0 {
        assert forall|i: int| 0 <= i < before.len() implies (#[trigger] before[i]).speed_from > 0
            && before[i].speed_to > 0 by {
            assert(before[i] == segs[i]);
        }
        law_speed_bounds_are_tight(before);
        assert forall|i: int| 0 <= i < segs.len() implies ramp::slowest(segs) <= (#[trigger] segs[i]).speed_from
            <= ramp::fastest(segs) && ramp::slowest(segs) <= segs[i].speed_to <= ramp::fastest(segs) by {
            if i < n {
                assert(segs[i] == before[i]);
            }
        }
        let lo = choose|i: int|
            0 <= i < before.len() && (ramp::slowest(before) == (#[trigger] before[i]).speed_from
                || ramp::slowest(before) == before[i].speed_to);
        let hi = choose|i: int|
            0 <= i < before.len() && (ramp::fastest(before) == (#[trigger] before[i]).speed_from
                || ramp::fastest(before) == before[i].speed_to);
        assert(segs[lo] == before[lo] && segs[hi] == before[hi]);
    } else {
        assert(ramp::slowest(before) == i64::MAX && ramp::fastest(before) == 0);
        reveal_with_fuel(ramp::slowest, 2);
        reveal_with_fuel(ramp::fastest, 2);
    }
    assert(segs[n] == segs.last());
}

/// Where a step that begins at `t` ends: a step later, or with its piece.
pub open spec fn step_end(s: Segment, t: int, step: int) -> int {
    if t + step < s.to {
        t + step
    } else {
        s.to as int
    }
}

/// A tempo change that belongs to a piece: on a level piece it comes at its beginning and holds
/// its speed; on a slope it comes at one of its steps and holds the speed that the slope has half
/// way through the step, to the nearest billionth.
pub open spec fn holds_the_curve(s: Segment, step: int, change: (int, int)) -> bool {
    let (t, speed) = change;
    if ramp::flat(s) {
        t == s.from && speed == s.speed_from
    } else {
        let span = 2 * (s.to - s.from);
        let gone = t + step_end(s, t, step) - 2 * s.from;
        &&& s.from <= t < s.to
        &&& (t - s.from) % step == 0
        &&& -span <= 2 * ((speed - s.speed_from) * span - (s.speed_to - s.speed_from) * gone) <= span
    }
}

proof fn lemma_middle(s: Segment, t: int, step: int)
    requires
        s.from <= t < s.to,
        step > 0,
    ensures
        ({
            let v = ramp::middle_speed(s, t, step_end(s, t, step));
            let span = 2 * (s.to - s.from);
            let gone = t + step_end(s, t, step) - 2 * s.from;
            -span <= 2 * ((v - s.speed_from) * span - (s.speed_to - s.speed_from) * gone) <= span
        }),
{
    let span = 2 * (s.to - s.from);
    let gone = t + step_end(s, t, step) - 2 * s.from;
    number::lemma_near((s.speed_to - s.speed_from) * gone, span);
}

proof fn lemma_steps(s: Segment, t: int, step: int, i: int)
    requires
        s.from <= t,
        step > 0,
        0 <= i < ramp::steps(s, t, step).len(),
    ensures
        ({
            let at = t + i * step;
            &&& ramp::steps(s, t, step)[i] == (at, ramp::middle_speed(s, at, step_end(s, at, step)))
            &&& at < s.to - 1
            &&& i == ramp::steps(s, t, step).len() - 1 ==> step_end(s, at, step) >= s.to - 1
        }),
    decreases s.to - t,
{
    let end = step_end(s, t, step);
    let rest = ramp::steps(s, end, step);
    if i > 0 {
        lemma_steps(s, end, step, i - 1);
        assert(end == t + step);
        assert(end + (i - 1) * step == t + i * step) by (nonlinear_arith)
            requires
                end == t + step,
        ;
    } else {
        assert(0 * step == 0);
    }
}

/// The sound follows a slope step by step. The steps come every `step` from the slope's beginning
/// and take it to its end, each holds the slope's own speed at the step's middle, and so on a
/// rising slope the tempo never falls and on a falling one it never rises.
pub proof fn law_steps_follow_the_slope(s: Segment, step: int, i: int, j: int)
    requires
        !ramp::flat(s),
        step > 0,
        0 <= i <= j < ramp::steps(s, s.from as int, step).len(),
    ensures
        ({
            let all = ramp::steps(s, s.from as int, step);
            &&& all[0].0 == s.from
            &&& all[i].0 == s.from + i * step
            &&& all.last().0 + step >= s.to - 1
            &&& holds_the_curve(s, step, all[i])
            &&& s.speed_from <= s.speed_to ==> s.speed_from <= all[i].1 <= all[j].1 <= s.speed_to
            &&& s.speed_to <= s.speed_from ==> s.speed_to <= all[j].1 <= all[i].1 <= s.speed_from
        }),
{
    let all = ramp::steps(s, s.from as int, step);
    let last = all.len() - 1;
    lemma_steps(s, s.from as int, step, 0);
    lemma_steps(s, s.from as int, step, i);
    lemma_steps(s, s.from as int, step, j);
    lemma_steps(s, s.from as int, step, last);
    assert(0 * step == 0);
    let (t, u) = (s.from + i * step, s.from + j * step);
    assert(i * step >= 0 && t <= u) by (nonlinear_arith)
        requires
            0 <= i <= j,
            step > 0,
            t == s.from + i * step,
            u == s.from + j * step,
    ;
    lemma_middle(s, t, step);
    vstd::arithmetic::div_mod::lemma_mod_multiples_basic(i, step);
    let span = 2 * (s.to - s.from);
    let (x, y) = (t + step_end(s, t, step) - 2 * s.from, u + step_end(s, u, step) - 2 * s.from);
    let rise = s.speed_to - s.speed_from;
    number::lemma_between(s.speed_from as int, s.speed_to as int, x, span);
    number::lemma_between(s.speed_from as int, s.speed_to as int, y, span);
    if rise >= 0 {
        assert(rise * x <= rise * y) by (nonlinear_arith)
            requires
                rise >= 0,
                x <= y,
        ;
        number::lemma_nearest_keeps_order(rise * x, rise * y, span);
    } else {
        assert(rise * x >= rise * y) by (nonlinear_arith)
            requires
                rise <= 0,
                x <= y,
        ;
        number::lemma_nearest_keeps_order(rise * y, rise * x, span);
    }
}

/// Every tempo change of a curve belongs to a piece and holds the curve there, and every piece
/// that is longer than a billionth has one at its beginning.
pub proof fn law_sound_holds_the_curve(segs: Seq<Segment>, step: int, k: int)
    requires
        step > 0,
        0 <= k <= segs.len(),
    ensures
        ({
            let all = ramp::beats(segs, step, k);
            &&& forall|j: int|
                0 <= j < all.len() ==> exists|i: int|
                    0 <= i < k && holds_the_curve(#[trigger] segs[i], step, #[trigger] all[j])
            &&& forall|i: int|
                0 <= i < k && (#[trigger] segs[i]).from + 1 < segs[i].to ==> exists|j: int|
                    0 <= j < all.len() && (#[trigger] all[j]).0 == segs[i].from && holds_the_curve(
                        segs[i],
                        step,
                        all[j],
                    )
        }),
    decreases k,
{
    if k > 0 {
        law_sound_holds_the_curve(segs, step, k - 1);
        let s = segs[k - 1];
        let before = ramp::beats(segs, step, k - 1);
        let all = ramp::beats(segs, step, k);
        let own = if ramp::flat(s) {
            seq![(s.from as int, s.speed_from as int)]
        } else {
            ramp::steps(s, s.from as int, step)
        };
        assert(all == before + own);
        assert forall|j: int| 0 <= j < all.len() implies exists|i: int|
            0 <= i < k && holds_the_curve(#[trigger] segs[i], step, #[trigger] all[j]) by {
            if j < before.len() {
                assert(all[j] == before[j]);
                let i = choose|i: int|
                    0 <= i < k - 1 && holds_the_curve(#[trigger] segs[i], step, before[j]);
                assert(holds_the_curve(segs[i], step, all[j]));
            } else {
                let m = j - before.len();
                assert(all[j] == own[m]);
                if !ramp::flat(s) {
                    law_steps_follow_the_slope(s, step, m, m);
                }
                assert(holds_the_curve(segs[k - 1], step, all[j]));
            }
        }
        assert forall|i: int| 0 <= i < k && (#[trigger] segs[i]).from + 1 < segs[i].to implies exists|
            j: int,
        |
            0 <= j < all.len() && (#[trigger] all[j]).0 == segs[i].from && holds_the_curve(
                segs[i],
                step,
                all[j],
            ) by {
            if i < k - 1 {
                let j = choose|j: int|
                    0 <= j < before.len() && (#[trigger] before[j]).0 == segs[i].from && holds_the_curve(
                        segs[i],
                        step,
                        before[j],
                    );
                assert(all[j] == before[j]);
            } else {
                let j = before.len() as int;
                if !ramp::flat(s) {
                    assert(own.len() > 0);
                    law_steps_follow_the_slope(s, step, 0, 0);
                }
                assert(all[j] == own[0]);
            }
        }
    }
}

/// The tempo that one stage plays at; any other filter leaves it alone.
pub open spec fn stage_tempo(stage: Seq<char>) -> real {
    if text::begins(stage, "atempo="@) {
        expression::worth(stage.skip(7))
    } else {
        1 as real
    }
}

/// The tempo that stages one after another play at.
pub open spec fn together(stages: Seq<Seq<char>>) -> real
    decreases stages.len(),
{
    if stages.len() == 0 {
        1 as real
    } else {
        stage_tempo(stages[0]) * together(stages.skip(1))
    }
}

proof fn lemma_together_one(x: Seq<char>)
    ensures
        together(seq![x]) == stage_tempo(x),
        together(Seq::empty()) == 1 as real,
{
    assert(seq![x].skip(1) =~= Seq::empty());
    reveal_with_fuel(together, 2);
    lemma_nothing(stage_tempo(x), stage_tempo(x));
}

proof fn lemma_together(a: Seq<Seq<char>>, b: Seq<Seq<char>>)
    ensures
        together(a + b) == together(a) * together(b),
    decreases a.len(),
{
    if a.len() == 0 {
        assert(a + b =~= b);
        lemma_nothing(together(b), together(b));
    } else {
        assert((a + b).skip(1) =~= a.skip(1) + b);
        lemma_together(a.skip(1), b);
        lemma_regroup(stage_tempo(a[0]), together(a.skip(1)), together(b));
    }
}

proof fn lemma_twice_and_half()
    ensures
        stage_tempo("atempo=2.0"@) == 2 as real,
        stage_tempo("atempo=0.5"@) * 2 as real == 1 as real,
{
    reveal_strlit("atempo=");
    reveal_strlit("atempo=2.0");
    reveal_strlit("atempo=0.5");
    reveal(expression::worth);
    assert("atempo=2.0"@.skip(7) =~= reading::plain(false, seq!['2'], seq!['0']));
    assert("atempo=0.5"@.skip(7) =~= reading::plain(false, seq!['0'], seq!['5']));
    assert("atempo=2.0"@.take(7) =~= "atempo="@);
    assert("atempo=0.5"@.take(7) =~= "atempo="@);
    assert(seq!['2'] + seq!['0'] =~= seq!['2', '0']);
    assert(seq!['0'] + seq!['5'] =~= seq!['0', '5']);
    assert(seq!['2', '0'].drop_last() =~= seq!['2']);
    assert(seq!['0', '5'].drop_last() =~= seq!['0']);
    assert(seq!['2'].drop_last() =~= Seq::empty());
    assert(seq!['0'].drop_last() =~= Seq::empty());
    reveal_with_fuel(reading::nat_of, 3);
    assert(reading::nat_of(seq!['2'] + seq!['0']) == 20);
    assert(reading::nat_of(seq!['0'] + seq!['5']) == 5);
    assert(reading::pow10(5) == 100_000) by {
        reveal_with_fuel(reading::pow10, 6);
    }
    assert(seq!['0'].len() == 1 && seq!['5'].len() == 1);
    assert(reading::pow10((6 - seq!['0'].len()) as nat) == 100_000);
    reading::lemma_plain(false, seq!['2'], seq!['0'], 6);
    reading::lemma_plain(false, seq!['0'], seq!['5'], 6);
}

proof fn lemma_all_twice(k: nat)
    ensures
        together(Seq::new(k, |i: int| "atempo=2.0"@)) == tempo::two_to(k) as real,
    decreases k,
{
    let all = Seq::new(k, |i: int| "atempo=2.0"@);
    if k > 0 {
        lemma_twice_and_half();
        lemma_all_twice((k - 1) as nat);
        assert(all.skip(1) =~= Seq::new((k - 1) as nat, |i: int| "atempo=2.0"@));
        assert(all[0] == "atempo=2.0"@);
        assert(tempo::two_to(k) == 2 * tempo::two_to((k - 1) as nat));
    }
}

proof fn lemma_all_half(k: nat)
    ensures
        together(Seq::new(k, |i: int| "atempo=0.5"@)) * (tempo::two_to(k) as real) == 1 as real,
        together(Seq::new(k, |i: int| "atempo=0.5"@)) > 0 as real,
        tempo::two_to(k) >= 1,
    decreases k,
{
    let all = Seq::new(k, |i: int| "atempo=0.5"@);
    if k > 0 {
        lemma_twice_and_half();
        lemma_all_half((k - 1) as nat);
        assert(all.skip(1) =~= Seq::new((k - 1) as nat, |i: int| "atempo=0.5"@));
        let (h, r, p) = (
            stage_tempo("atempo=0.5"@),
            together(all.skip(1)),
            tempo::two_to((k - 1) as nat) as real,
        );
        lemma_halved(h, r, p);
    } else {
        lemma_nothing(1 as real, 1 as real);
    }
}

proof fn lemma_halved(h: real, r: real, p: real)
    requires
        h * 2 as real == 1 as real,
        r * p == 1 as real,
        r > 0 as real,
    ensures
        (h * r) * (2 as real * p) == 1 as real,
        h * r > 0 as real,
{
    let half = h * r;
    lemma_regroup(r, h, 2 as real);
    lemma_regroup(h, r, 2 as real);
    lemma_nothing(r, r);
    assert(half * 2 as real == r);
    lemma_regroup(half, 2 as real, p);
}

/// What is left for the last stage is played to within a millionth.
proof fn lemma_last_stage(n: int, d: int)
    requires
        d > 0,
        499_999_999 * d <= n * ONE <= 2_000_000_001 * d,
    ensures
        expression::near(together(tempo::last_stage(n, d)), n as real / d as real),
{
    assert(0 <= n <= 3 * d) by (nonlinear_arith)
        requires
            d > 0,
            499_999_999 * d <= n * 1_000_000_000 <= 2_000_000_001 * d,
    ;
    let stage = "atempo="@ + number::ratio_text(n, d);
    reveal_strlit("atempo=");
    assert(stage.take(7) =~= "atempo="@);
    assert(stage.skip(7) =~= number::ratio_text(n, d));
    lemma_together_one(stage);
    expression::law_worth_of_a_ratio(n, d);
    if tempo::last_stage(n, d).len() == 0 {
        let (x, y) = (n as real, d as real);
        let q = x / y;
        lemma_divided(x, y);
        lemma_close_to_one(q, x, y);
    }
}

proof fn lemma_close_to_one(q: real, x: real, y: real)
    by (nonlinear_arith)
    requires
        q * y == x,
        y > 0 as real,
        x * 1_000_000_000 as real <= 1_000_000_001 as real * y,
        x * 1_000_000_000 as real >= 999_999_999 as real * y,
    ensures
        -1 as real <= (1 as real - q) * 1_000_000 as real <= 1 as real,
{
}

/// The stages that are spelled out multiply to the speed asked for, to the rounding of the one
/// that is printed.
pub proof fn law_stages_play_at_the_speed(speed: int)
    requires
        0 < speed <= 4_000_000_000_000_000_000,
    ensures
        size(together(tempo::chain(speed)) - plain(speed)) * 1_000_000 as real <= (if speed > ONE {
            plain(speed)
        } else {
            1 as real
        }),
{
    tempo::law_stages_make_the_speed(speed);
    let (n, d) = tempo::remainder(speed);
    lemma_last_stage(n, d);
    let last = together(tempo::last_stage(n, d));
    let q = n as real / d as real;
    lemma_divided(n as real, d as real);
    if speed > 2_000_000_001 {
        lemma_fast_chain(speed, n, d, last, q);
    } else {
        lemma_slow_chain(speed, n, d, last, q);
        lemma_at_least_one(speed);
    }
}

proof fn lemma_at_least_one(speed: int)
    ensures
        speed > ONE ==> plain(speed) >= 1 as real,
{
    let one = ONE as int as real;
    assert(one == 1_000_000_000 as real);
    lemma_divided(speed as real, one);
    let x = plain(speed);
    assert(x * one == speed as real);
}

proof fn lemma_fast_chain(speed: int, n: int, d: int, last: real, q: real)
    requires
        2_000_000_001 < speed,
        (n, d) == tempo::remainder(speed),
        last == together(tempo::last_stage(n, d)),
        q * (d as real) == n as real,
        expression::near(last, q),
    ensures
        size(together(tempo::chain(speed)) - plain(speed)) * 1_000_000 as real <= plain(speed),
{
    let one = ONE as int as real;
    let k = tempo::doublings(speed, 1);
    let p = tempo::two_to(k);
    let first = Seq::new(k, |i: int| "atempo=2.0"@);
    let m = p as real;
    tempo::lemma_doublings(speed, 1);
    lemma_all_twice(k);
    lemma_together(first, tempo::last_stage(n, d));
    assert(tempo::chain(speed) == first + tempo::last_stage(n, d));
    lemma_cast(ONE as int, p, d);
    lemma_divided(speed as real, one);
    lemma_swap(q, one, m);
    lemma_same_factor(q * m, plain(speed), one);
    assert(2 * speed > 2_000_000_001 * (1 * p));
    assert(m <= plain(speed));
    lemma_small_part_of(last - q, m);
    lemma_spread(last, q, m);
    assert(together(tempo::chain(speed)) - plain(speed) == (last - q) * m);
}

proof fn lemma_slow_chain(speed: int, n: int, d: int, last: real, q: real)
    requires
        0 < speed <= 2_000_000_001,
        (n, d) == tempo::remainder(speed),
        last == together(tempo::last_stage(n, d)),
        q * (d as real) == n as real,
        expression::near(last, q),
    ensures
        size(together(tempo::chain(speed)) - plain(speed)) * 1_000_000 as real <= 1 as real,
{
    let one = ONE as int as real;
    let k = tempo::halvings(speed);
    let p = tempo::two_to(k);
    let first = Seq::new(k, |i: int| "atempo=0.5"@);
    lemma_all_half(k);
    lemma_together(first, tempo::last_stage(n, d));
    assert(tempo::chain(speed) == first + tempo::last_stage(n, d));
    let (h, m) = (together(first), p as real);
    lemma_cast(speed, p, n);
    lemma_divided(speed as real, one);
    lemma_undo(h, m, q, one, speed as real);
    lemma_same_factor(h * q, plain(speed), one);
    lemma_at_most_one(h, m);
    lemma_small_part_of(last - q, h);
    lemma_spread(last, q, h);
    assert(together(tempo::chain(speed)) - plain(speed) == (last - q) * h);
}

proof fn lemma_cast(a: int, b: int, c: int)
    by (nonlinear_arith)
    requires
        c == a * b,
    ensures
        c as real == (a as real) * (b as real),
{
}

proof fn lemma_swap(q: real, one: real, m: real)
    by (nonlinear_arith)
    ensures
        q * (one * m) == (q * m) * one,
{
}

proof fn lemma_spread(last: real, q: real, m: real)
    by (nonlinear_arith)
    ensures
        m * last - q * m == (last - q) * m,
        m * last - m * q == (last - q) * m,
{
}

proof fn lemma_undo(h: real, m: real, q: real, one: real, speed: real)
    requires
        q * one == speed * m,
        h * m == 1 as real,
    ensures
        (h * q) * one == speed,
{
    lemma_regroup(h, q, one);
    lemma_regroup(speed, m, h);
    lemma_regroup(h, m, speed);
    lemma_regroup(h, speed * m, speed);
    lemma_nothing(speed, speed);
    assert((speed * m) * h == speed * (m * h));
    assert(m * h == h * m);
}

proof fn lemma_at_most_one(h: real, m: real)
    by (nonlinear_arith)
    requires
        h * m == 1 as real,
        m >= 1 as real,
        h > 0 as real,
    ensures
        h <= 1 as real,
{
}

proof fn lemma_beats_in_range(segs: Seq<Segment>, step: int, k: int, lo: int, hi: int)
    requires
        step > 0,
        0 <= k <= segs.len(),
        forall|i: int|
            0 <= i < segs.len() ==> lo <= (#[trigger] segs[i]).speed_from <= hi && lo <= segs[i].speed_to <= hi
                && 0 <= segs[i].from <= 4_000_000_000_000_000_000 && segs[i].to <= 4_000_000_000_000_000_000,
    ensures
        forall|j: int|
            0 <= j < ramp::beats(segs, step, k).len() ==> lo <= (#[trigger] ramp::beats(segs, step, k)[j]).1
                <= hi && 0 <= ramp::beats(segs, step, k)[j].0 <= 4_000_000_000_000_000_000,
    decreases k,
{
    if k > 0 {
        lemma_beats_in_range(segs, step, k - 1, lo, hi);
        let s = segs[k - 1];
        let before = ramp::beats(segs, step, k - 1);
        let all = ramp::beats(segs, step, k);
        assert forall|j: int| 0 <= j < all.len() implies lo <= (#[trigger] all[j]).1 <= hi && 0 <= all[j].0
            <= 4_000_000_000_000_000_000 by {
            if j < before.len() {
                assert(all[j] == before[j]);
            } else if !ramp::flat(s) {
                let m = j - before.len();
                assert(all[j] == ramp::steps(s, s.from as int, step)[m]);
                law_steps_follow_the_slope(s, step, m, m);
            }
        }
    }
}

/// The commands that are spelled out tell the driven stage each tempo change: when it comes, to
/// the millionth of a second, and what the curve's speed there leaves over the slowest, to the
/// millionth. The stage starts from the first of them, and the fixed stages in front of it play at
/// the slowest speed.
pub proof fn law_sound_is_told_the_curve(segs: Seq<Segment>, step: int)
    requires
        step > 0,
        ramp::sounded(segs, step) is Some,
        forall|i: int|
            0 <= i < segs.len() ==> (#[trigger] segs[i]).speed_from > 0 && segs[i].speed_to > 0 && 0
                <= segs[i].from <= 4_000_000_000_000_000_000 && segs[i].to <= 4_000_000_000_000_000_000,
    ensures
        ({
            let lo = ramp::slowest(segs);
            let changes = ramp::beats(segs, step, segs.len() as int);
            let stages = ramp::sounded(segs, step)->0;
            exists|at: Seq<Seq<char>>, tempo: Seq<Seq<char>>| #[trigger]
                told(stages, at, tempo) && at.len() == changes.len() && tempo.len() == changes.len() && forall|
                    j: int,
                |
                    0 <= j < changes.len() ==> expression::near(
                        expression::worth(#[trigger] at[j]),
                        plain(changes[j].0),
                    ) && expression::near(
                        expression::worth(tempo[j]),
                        changes[j].1 as real / lo as real,
                    )
        }),
        ramp::sounded(segs, step)->0.subrange(1, ramp::sounded(segs, step)->0.len() - 1) == tempo::chain(
            ramp::slowest(segs),
        ),
{
    let lo = ramp::slowest(segs);
    let hi = ramp::fastest(segs);
    let changes = ramp::beats(segs, step, segs.len() as int);
    let stages = ramp::sounded(segs, step)->0;
    law_speed_bounds_are_tight(segs);
    assert forall|i: int| 0 <= i < segs.len() implies lo <= (#[trigger] segs[i]).speed_from <= hi && lo
        <= segs[i].speed_to <= hi by {}
    lemma_beats_in_range(segs, step, segs.len() as int, lo, hi);
    let at = Seq::new(changes.len(), |j: int| number::num_text(changes[j].0));
    let tempo = Seq::new(changes.len(), |j: int| number::ratio_text(changes[j].1, lo));
    assert forall|j: int| 0 <= j < changes.len() implies expression::near(
        expression::worth(#[trigger] at[j]),
        plain(changes[j].0),
    ) && expression::near(expression::worth(tempo[j]), changes[j].1 as real / lo as real) by {
        lemma_number(changes[j].0);
        expression::law_worth_of_a_ratio(changes[j].1, lo);
    }
    assert(Seq::new(at.len(), |j: int| at[j] + " atempo@ramp tempo "@ + tempo[j]) =~= ramp::commands(
        changes,
        lo,
    ));
    assert(told(stages, at, tempo));
    assert(stages.subrange(1, stages.len() - 1) =~= tempo::chain(lo));
}

/// Stages that tell a driven tempo stage to play at `tempo[j]` from `at[j]` on.
pub open spec fn told(stages: Seq<Seq<char>>, at: Seq<Seq<char>>, tempo: Seq<Seq<char>>) -> bool {
    &&& stages.len() >= 2
    &&& tempo.len() > 0
    &&& stages[0] == "asendcmd=c='"@ + text::joined(
        Seq::new(at.len(), |j: int| at[j] + " atempo@ramp tempo "@ + tempo[j]),
        ";"@,
    ) + "'"@
    &&& stages.last() == "atempo@ramp="@ + tempo[0]
}

/// The sound can follow a curve exactly where its fastest is at most a hundred times its slowest.
pub proof fn law_sound_follows_up_to_a_hundredfold(segs: Seq<Segment>, step: int)
    requires
        step > 0,
        segs.len() > 0,
        forall|i: int|
            0 <= i < segs.len() ==> (#[trigger] segs[i]).speed_from > 0 && segs[i].speed_to > 0 && segs[i].from + 1
                < segs[i].to,
    ensures
        ramp::sounded(segs, step) is Some <==> ramp::fastest(segs) <= 100 * ramp::slowest(segs),
{
    law_speed_bounds_are_tight(segs);
    assert(segs[0].speed_from > 0 && segs[0].speed_to > 0);
    let lo = choose|i: int|
        0 <= i < segs.len() && (ramp::slowest(segs) == (#[trigger] segs[i]).speed_from || ramp::slowest(segs)
            == segs[i].speed_to);
    assert(segs[lo].speed_from > 0 && segs[lo].speed_to > 0);
    law_sound_holds_the_curve(segs, step, segs.len() as int);
    let all = ramp::beats(segs, step, segs.len() as int);
    assert(segs[0].from + 1 < segs[0].to);
    let j = choose|j: int|
        0 <= j < all.len() && (#[trigger] all[j]).0 == segs[0].from && holds_the_curve(segs[0], step, all[j]);
    assert(all.len() > 0);
}

/// The curve's own limits: points a millisecond apart are one, a multiplier is a twentieth to
/// twenty times, the sound is stepped every half second, and two speeds within a millionth are
/// level.
pub proof fn law_curves_have_their_limits(s: Segment)
    ensures
        ramp::RAMP_EPSILON == 1_000_000,
        ramp::RAMP_MIN == 50_000_000,
        ramp::RAMP_MAX == 20_000_000_000,
        ramp::AUDIO_STEP_SECONDS == 500_000_000,
        ramp::MAX_AUDIO_SPAN == 100,
        ramp::MAX_POINTS == 24,
        ramp::flat(s) <==> -1000 < s.speed_to - s.speed_from < 1000,
{
}

} // verus!
