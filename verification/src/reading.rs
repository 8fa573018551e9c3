//! Reading decimal numbers out of text that other programs wrote.

use vstd::prelude::*;
use crate::number;
use crate::number::clamp64;
use crate::sysutil;
use crate::text::chars_of;

verus! {

/// What a piece of text says as a number, in units of the caller's choosing.
#[derive(Clone, Copy, PartialEq, Eq, Structural)]
pub enum Reading {
    /// A decimal number, rounded to the unit.
    Value(i64),
    /// Positive infinity, spelled out or past what a double holds.
    Above,
    /// Negative infinity, spelled out or past what a double holds.
    Below,
    NotANumber,
}

pub open spec fn is_digit(c: char) -> bool {
    '0' <= c <= '9'
}

/// How many decimal digits stand in a row from position `i` on.
pub open spec fn run(s: Seq<char>, i: int) -> int
    decreases s.len() - i,
{
    if 0 <= i < s.len() && is_digit(s[i]) {
        1 + run(s, i + 1)
    } else {
        0
    }
}

/// What a digit stands for; what is no digit stands for nothing.
pub open spec fn digit_value(c: char) -> int {
    if is_digit(c) {
        c as int - 48
    } else {
        0
    }
}

/// The number that a row of digits spells.
pub open spec fn nat_of(ds: Seq<char>) -> int
    decreases ds.len(),
{
    if ds.len() == 0 {
        0
    } else {
        10 * nat_of(ds.drop_last()) + digit_value(ds.last())
    }
}

pub open spec fn pow10(n: nat) -> int
    decreases n,
{
    if n == 0 {
        1
    } else {
        10 * pow10((n - 1) as nat)
    }
}

/// `ds` read as a whole number and shifted `shift` decimal places to the left, rounded to the
/// nearest whole number.
pub open spec fn shifted(ds: Seq<char>, shift: int) -> int {
    if shift >= 0 {
        nat_of(ds) * pow10(shift as nat)
    } else {
        number::nearest(nat_of(ds), pow10((-shift) as nat))
    }
}

pub open spec fn is_sign(c: char) -> bool {
    c == '+' || c == '-'
}

/// 1 when a sign stands at position `i`, else 0.
pub open spec fn sign_len(s: Seq<char>, i: int) -> int {
    if i < s.len() && is_sign(s[i]) {
        1
    } else {
        0
    }
}

pub open spec fn same_letter(c: char, small: char) -> bool {
    c == small || c as int + 32 == small as int
}

/// `s` from position `i` on spells `word`, which is in small letters, in any case.
pub open spec fn spells(s: Seq<char>, i: int, word: Seq<char>) -> bool {
    &&& s.len() - i == word.len()
    &&& forall|j: int| 0 <= j < word.len() ==> same_letter(s[i + j], #[trigger] word[j])
}

/// The digits of a decimal fraction that starts at `p`, its point left out; how many of them
/// stand behind the point; and where it ends.
pub open spec fn mantissa(s: Seq<char>, p: int) -> (Seq<char>, int, int) {
    let dot = p + run(s, p);
    if dot < s.len() && s[dot] == '.' {
        let fraction = run(s, dot + 1);
        (
            s.subrange(p, dot) + s.subrange(dot + 1, dot + 1 + fraction),
            fraction,
            dot + 1 + fraction,
        )
    } else {
        (s.subrange(p, dot), 0, dot)
    }
}

/// The power of ten written from `i` to the end: nothing at all, or an `e` and a whole number.
pub open spec fn exponent(s: Seq<char>, i: int) -> Option<int> {
    let x = i + 1 + sign_len(s, i + 1);
    let power = run(s, x);
    if i == s.len() {
        Some(0)
    } else if same_letter(s[i], 'e') && power > 0 && x + power == s.len() {
        let e = nat_of(s.subrange(x, x + power));
        Some(if x == i + 2 && s[i + 1] == '-' {
            -e
        } else {
            e
        })
    } else {
        None
    }
}

pub open spec fn is_infinity(s: Seq<char>, p: int) -> bool {
    spells(s, p, seq!['i', 'n', 'f']) || spells(
        s,
        p,
        seq!['i', 'n', 'f', 'i', 'n', 'i', 't', 'y'],
    )
}

/// Whether the number `a` with its point moved `x` places to the right is at least `b` with its
/// point moved `y` places to the right.
pub open spec fn at_least(a: Seq<char>, x: int, b: Seq<char>, y: int) -> bool {
    let low = if x < y {
        x
    } else {
        y
    };
    nat_of(a) * pow10((x - low) as nat) >= nat_of(b) * pow10((y - low) as nat)
}

/// 2^1024 - 2^970, half way from the largest double to the power of two above it: from here on a
/// number is infinite to one.
pub const TOO_LARGE: &'static str = "179769313486231580793728971405303415079934132710037826936173778980444968292764750946649017\
    977587207096330286416692887910946555547851940402630657488671505820681908902000708383676273\
    854845817711531764475730270069855571366959622842914819860834936475292719074168444365510704\
    342711559699508093042880177904174497792";

/// 5^1075. With its point moved 1075 places to the left it is 2^-1075, half of the smallest
/// double: a number that is no larger is zero to one.
pub const VANISHING: &'static str = "247032822920623272088284396434110686182529901307162382212792841250337753635104375932649918\
    180817996189898282347722858865463328355177969898199387398005390939063150356595155702263922\
    908583924491051844359318028499365361525003193704576782492193656236698636584807570015857692\
    699037063119282795585513329278343384093519780155312465972635795746227664652728272200563740\
    064854999770965994704540208281662262378573934507363390079677619305775067401763246736009689\
    513405355374585166611342237666786041621596804619144672918403005300575308490487653917113865\
    916462395249126236538818796362393732804238910186723484976682350898633885879256283027559956\
    575244555072551893136908362547791869486679949683240497058210285131854513962138377228261454\
    37693412532098591327667236328125";

/// The number `ds` with its point moved `shift` places to the right, rounded to `places` decimals
/// and given in units of the last of them. What a double cannot hold is infinite; with decimals
/// asked for, what is not zero to a double stays off zero, if only by one unit.
pub open spec fn decimal_reading(negative: bool, ds: Seq<char>, shift: int, places: int) -> Reading {
    let v = signed_value(negative, ds, places + shift);
    if at_least(ds, shift, TOO_LARGE@, 0) {
        if negative {
            Reading::Below
        } else {
            Reading::Above
        }
    } else if v == 0 && places > 0 && !at_least(VANISHING@, -1075, ds, shift) {
        Reading::Value(if negative {
            -1i64
        } else {
            1i64
        })
    } else {
        Reading::Value(v)
    }
}

/// Reads `s` by the grammar of decimal numbers: a sign, digits with an optional point, an
/// optional exponent, or one of the words for what is not finite. The value is given as
/// [`decimal_reading`] has it.
pub open spec fn reading(s: Seq<char>, places: int) -> Option<Reading> {
    let p = sign_len(s, 0);
    let negative = p == 1 && s[0] == '-';
    let (ds, fraction, end) = mantissa(s, p);
    if is_infinity(s, p) {
        Some(if negative {
            Reading::Below
        } else {
            Reading::Above
        })
    } else if spells(s, p, seq!['n', 'a', 'n']) {
        Some(Reading::NotANumber)
    } else if ds.len() == 0 {
        None
    } else {
        match exponent(s, end) {
            Some(e) => Some(decimal_reading(negative, ds, e - fraction, places)),
            None => None,
        }
    }
}

pub open spec fn signed_value(negative: bool, ds: Seq<char>, shift: int) -> i64 {
    let size = shifted(ds, shift);
    number::sat(if negative {
        -size
    } else {
        size
    }) as i64
}

proof fn lemma_pow10_pos(n: nat)
    ensures
        pow10(n) >= 1,
    decreases n,
{
    if n > 0 {
        lemma_pow10_pos((n - 1) as nat);
    }
}

proof fn lemma_pow10_mono(a: nat, b: nat)
    requires
        a <= b,
    ensures
        pow10(a) <= pow10(b),
    decreases b,
{
    if a < b {
        lemma_pow10_mono(a, (b - 1) as nat);
        lemma_pow10_pos((b - 1) as nat);
    }
}

pub open spec fn all_digits(ds: Seq<char>) -> bool {
    forall|i: int| 0 <= i < ds.len() ==> is_digit(#[trigger] ds[i])
}

proof fn lemma_nat_of_bound(ds: Seq<char>)
    ensures
        0 <= nat_of(ds) < pow10(ds.len()),
    decreases ds.len(),
{
    if ds.len() > 0 {
        lemma_nat_of_bound(ds.drop_last());
    }
}

/// Splitting a row of digits splits its value.
proof fn lemma_nat_of_split(ds: Seq<char>, keep: int)
    requires
        0 <= keep <= ds.len(),
    ensures
        nat_of(ds) == nat_of(ds.take(keep)) * pow10((ds.len() - keep) as nat) + nat_of(
            ds.skip(keep),
        ),
    decreases ds.len() - keep,
{
    if keep == ds.len() {
        assert(ds.take(keep) =~= ds);
        assert(ds.skip(keep) =~= Seq::empty());
    } else {
        let front = ds.drop_last();
        lemma_nat_of_split(front, keep);
        assert(front.take(keep) =~= ds.take(keep));
        assert(front.skip(keep) =~= ds.skip(keep).drop_last());
        assert(ds.skip(keep).last() == ds.last());
        let a = nat_of(ds.take(keep));
        let p = pow10((ds.len() - keep - 1) as nat);
        assert(10 * (a * p) == a * (10 * p)) by (nonlinear_arith);
    }
}

proof fn lemma_nat_of_prefix(ds: Seq<char>, i: int)
    requires
        0 <= i < ds.len(),
    ensures
        nat_of(ds.take(i + 1)) == 10 * nat_of(ds.take(i)) + digit_value(ds[i]),
{
    assert(ds.take(i + 1).drop_last() =~= ds.take(i));
    assert(ds.take(i + 1).last() == ds[i]);
}

/// Dropping the last `cut` digits and rounding looks at one digit only.
proof fn lemma_round_cut(ds: Seq<char>, cut: int)
    requires
        all_digits(ds),
        0 < cut <= ds.len(),
    ensures
        number::nearest(nat_of(ds), pow10(cut as nat)) == nat_of(ds.take(ds.len() - cut)) + (if ds[ds.len()
            - cut] >= '5' {
            1int
        } else {
            0int
        }),
{
    let keep = ds.len() - cut;
    let tail = ds.skip(keep);
    let p = pow10(cut as nat);
    let q = pow10((cut - 1) as nat);
    lemma_pow10_pos((cut - 1) as nat);
    lemma_nat_of_split(ds, keep);
    let a = nat_of(ds.take(keep));
    let b = nat_of(tail);
    assert forall|i: int| 0 <= i < tail.len() implies is_digit(#[trigger] tail[i]) by {
        assert(is_digit(ds[keep + i]));
    }
    lemma_nat_of_bound(tail);
    lemma_nat_of_split(tail, 1);
    assert(tail.take(1) =~= seq![ds[keep]]);
    assert(tail.take(1).drop_last() =~= Seq::empty());
    assert(nat_of(tail.take(1)) == ds[keep] as int - 48) by {
        reveal_with_fuel(nat_of, 2);
    }
    let rest = tail.skip(1);
    assert forall|i: int| 0 <= i < rest.len() implies is_digit(#[trigger] rest[i]) by {
        assert(is_digit(tail[i + 1]));
    }
    lemma_nat_of_bound(rest);
    let d = ds[keep] as int - 48;
    let c = nat_of(rest);
    assert(is_digit(ds[keep]));
    assert(b == d * q + c && 0 <= c < q && p == 10 * q);
    assert(2 * b >= p <==> d >= 5) by (nonlinear_arith)
        requires
            b == d * q + c,
            0 <= c < q,
            p == 10 * q,
            0 <= d <= 9,
    ;
    assert(nat_of(ds) == a * p + b);
    lemma_nat_of_bound(ds.take(keep));
    vstd::arithmetic::div_mod::lemma_fundamental_div_mod_converse(nat_of(ds), p, a, b);
    assert(a * p + b >= 0) by (nonlinear_arith)
        requires
            a >= 0,
            p >= 1,
            b >= 0,
    ;
    number::lemma_nearest_parts(nat_of(ds), p);
}

/// Nothing is left of digits that all stand behind the last place kept.
proof fn lemma_round_all(ds: Seq<char>, cut: int)
    requires
        all_digits(ds),
        cut > ds.len(),
    ensures
        number::nearest(nat_of(ds), pow10(cut as nat)) == 0,
{
    lemma_nat_of_bound(ds);
    lemma_pow10_mono(ds.len(), (cut - 1) as nat);
    let m = nat_of(ds);
    let p = pow10(cut as nat);
    vstd::arithmetic::div_mod::lemma_fundamental_div_mod_converse(m, p, 0, m);
    number::lemma_nearest_parts(m, p);
}

/// A ceiling far above anything an `i64` holds.
const CEILING: u128 = 0x1_0000_0000_0000_0000_0000;

pub open spec fn capped(n: int) -> int {
    if n > 0x1_0000_0000_0000_0000_0000 {
        0x1_0000_0000_0000_0000_0000
    } else {
        n
    }
}

/// The value of the first `count` digits, or the ceiling when it is above that.
fn capped_value(ds: &Vec<char>, count: usize) -> (r: u128)
    requires
        count <= ds.len(),
        all_digits(ds@),
    ensures
        r == capped(nat_of(ds@.take(count as int))),
{
    let mut acc: u128 = 0;
    let mut i: usize = 0;
    proof {
        assert(ds@.take(0) =~= Seq::empty());
    }
    while i < count
        invariant
            i <= count <= ds.len(),
            all_digits(ds@),
            acc == capped(nat_of(ds@.take(i as int))),
        decreases count - i,
    {
        proof {
            lemma_nat_of_prefix(ds@, i as int);
            lemma_nat_of_bound(ds@.take(i as int));
            assert(is_digit(ds@[i as int]));
        }
        let d: u128 = (ds[i] as u128) - 48;
        acc = acc * 10 + d;
        if acc > CEILING {
            acc = CEILING;
        }
        i += 1;
    }
    acc
}

proof fn lemma_scale_step(n: int, shift: nat)
    requires
        shift > 0,
    ensures
        n * pow10(shift) == (n * 10) * pow10((shift - 1) as nat),
{
    let p = pow10((shift - 1) as nat);
    assert(n * (10 * p) == (n * 10) * p) by (nonlinear_arith);
}

proof fn lemma_scale_grows(n: int, shift: nat)
    requires
        n >= 0,
    ensures
        n * pow10(shift) >= n,
{
    lemma_pow10_pos(shift);
    let p = pow10(shift);
    assert(n * p >= n) by (nonlinear_arith)
        requires
            n >= 0,
            p >= 1,
    ;
}

/// `ds` shifted by `shift` places, or the ceiling when that is above it.
fn shifted_value(ds: &Vec<char>, shift: i128) -> (r: u128)
    requires
        all_digits(ds@),
    ensures
        capped(r as int) == capped(shifted(ds@, shift as int)),
        r <= CEILING + 1,
{
    let len: usize = ds.len();
    if shift < 0 {
        if shift < -(len as i128) {
            proof {
                lemma_round_all(ds@, -shift as int);
            }
            return 0;
        }
        let keep: usize = (len as i128 + shift) as usize;
        let head = capped_value(ds, keep);
        proof {
            lemma_round_cut(ds@, -shift as int);
            lemma_nat_of_bound(ds@.take(keep as int));
        }
        if ds[keep] >= '5' {
            return head + 1;
        }
        return head;
    }
    let mut acc: u128 = capped_value(ds, len);
    proof {
        assert(ds@.take(len as int) =~= ds@);
        lemma_nat_of_bound(ds@);
    }
    let ghost mut exact: int = nat_of(ds@);
    if acc == 0 {
        assert(shifted(ds@, shift as int) == 0) by (nonlinear_arith)
            requires
                shift >= 0,
                nat_of(ds@) == 0,
                shifted(ds@, shift as int) == nat_of(ds@) * pow10(shift as nat),
        ;
        return 0;
    }
    let mut left: i128 = shift;
    while left > 0 && acc < CEILING
        invariant
            0 <= left,
            exact >= 0,
            0 < acc == capped(exact),
            exact * pow10(left as nat) == shifted(ds@, shift as int),
        decreases left,
    {
        proof {
            lemma_scale_step(exact, left as nat);
            exact = exact * 10;
        }
        acc = acc * 10;
        if acc > CEILING {
            acc = CEILING;
        }
        left -= 1;
    }
    proof {
        lemma_scale_grows(exact, left as nat);
        if left == 0 {
            assert(exact * pow10(0) == exact);
        }
    }
    acc
}

proof fn lemma_run_bounds(s: Seq<char>, i: int)
    requires
        0 <= i,
    ensures
        0 <= run(s, i),
        i <= s.len() ==> i + run(s, i) <= s.len(),
        i > s.len() ==> run(s, i) == 0,
        i <= s.len() ==> all_digits(s.subrange(i, i + run(s, i))),
    decreases s.len() - i,
{
    if i < s.len() && is_digit(s[i]) {
        lemma_run_bounds(s, i + 1);
        let whole = s.subrange(i, i + run(s, i));
        let rest = s.subrange(i + 1, i + run(s, i));
        assert forall|j: int| 0 <= j < whole.len() implies is_digit(#[trigger] whole[j]) by {
            if j > 0 {
                assert(rest[j - 1] == whole[j]);
                assert(is_digit(rest[j - 1]));
            }
        }
    }
}

proof fn lemma_run_step(s: Seq<char>, i: int, n: int)
    requires
        0 <= i,
        0 <= n,
        i + n <= s.len(),
        forall|j: int| i <= j < i + n ==> is_digit(#[trigger] s[j]),
        i + n == s.len() || !is_digit(s[i + n]),
    ensures
        run(s, i) == n,
    decreases n,
{
    if n > 0 {
        assert(is_digit(s[i]));
        lemma_run_step(s, i + 1, n - 1);
    }
}

fn digit_run(s: &Vec<char>, from: usize) -> (r: usize)
    ensures
        r == run(s@, from as int),
        from <= s.len() ==> from + r <= s.len(),
        from <= s.len() ==> all_digits(s@.subrange(from as int, from + r)),
{
    proof {
        lemma_run_bounds(s@, from as int);
    }
    if from >= s.len() {
        return 0;
    }
    let mut n: usize = 0;
    while from + n < s.len() && '0' <= s[from + n] && s[from + n] <= '9'
        invariant
            from <= s.len(),
            from + n <= s.len(),
            forall|j: int| from <= j < from + n ==> is_digit(#[trigger] s@[j]),
        decreases s.len() - from - n,
    {
        n += 1;
    }
    proof {
        lemma_run_step(s@, from as int, n as int);
    }
    n
}

fn sign_at(s: &Vec<char>, i: usize) -> (r: usize)
    ensures
        r == sign_len(s@, i as int),
        r <= 1,
        r == 1 ==> i < s.len(),
{
    if i < s.len() && (s[i] == '+' || s[i] == '-') {
        1
    } else {
        0
    }
}

fn is_letter(c: char, small: char) -> (r: bool)
    requires
        'a' <= small <= 'z',
    ensures
        r == same_letter(c, small),
{
    c == small || c as u32 + 32 == small as u32
}

fn spells_word(s: &Vec<char>, from: usize, word: &Vec<char>) -> (r: bool)
    requires
        from <= s.len(),
        forall|j: int| 0 <= j < word.len() ==> 'a' <= #[trigger] word@[j] <= 'z',
    ensures
        r == spells(s@, from as int, word@),
{
    if s.len() - from != word.len() {
        return false;
    }
    let mut j: usize = 0;
    while j < word.len()
        invariant
            from <= s.len(),
            s.len() - from == word.len(),
            j <= word.len(),
            forall|k: int| 0 <= k < word.len() ==> 'a' <= #[trigger] word@[k] <= 'z',
            forall|k: int| 0 <= k < j ==> same_letter(s@[from + k], #[trigger] word@[k]),
        decreases word.len() - j,
    {
        if !is_letter(s[from + j], word[j]) {
            return false;
        }
        j += 1;
    }
    true
}

fn signed_reading(negative: bool, ds: &Vec<char>, shift: i128) -> (r: i64)
    requires
        all_digits(ds@),
    ensures
        r == signed_value(negative, ds@, shift as int),
{
    let size = shifted_value(ds, shift) as i128;
    if negative {
        clamp64(-size)
    } else {
        clamp64(size)
    }
}

/// Shifts that are far enough out all read the same.
proof fn lemma_far_shift(negative: bool, ds: Seq<char>, a: int, b: int)
    requires
        all_digits(ds),
        a == b || (a > 20 && b > 20) || (a < -ds.len() && b < -ds.len()),
    ensures
        signed_value(negative, ds, a) == signed_value(negative, ds, b),
{
    lemma_nat_of_bound(ds);
    if a > 20 && b > 20 {
        let m = nat_of(ds);
        assert(pow10(20) == 100_000_000_000_000_000_000) by {
            reveal_with_fuel(pow10, 21);
        }
        lemma_pow10_mono(20, a as nat);
        lemma_pow10_mono(20, b as nat);
        let pa = pow10(a as nat);
        let pb = pow10(b as nat);
        if m == 0 {
            assert(m * pa == 0 && m * pb == 0) by (nonlinear_arith)
                requires
                    m == 0,
            ;
        } else {
            assert(m * pa >= pa && m * pb >= pb) by (nonlinear_arith)
                requires
                    m >= 1,
                    pa >= 1,
                    pb >= 1,
            ;
        }
    } else if a != b {
        lemma_round_all(ds, -a);
        lemma_round_all(ds, -b);
    }
}

/// The characters of `s` from `from` up to `to`.
fn part(s: &Vec<char>, from: usize, to: usize) -> (r: Vec<char>)
    requires
        from <= to <= s.len(),
    ensures
        r@ == s@.subrange(from as int, to as int),
{
    let mut r: Vec<char> = Vec::new();
    let mut i: usize = from;
    while i < to
        invariant
            from <= i <= to <= s.len(),
            r@ == s@.subrange(from as int, i as int),
        decreases to - i,
    {
        r.push(s[i]);
        i += 1;
        proof {
            assert(r@ =~= s@.subrange(from as int, i as int));
        }
    }
    r
}

fn read_mantissa(s: &Vec<char>, p: usize) -> (r: (Vec<char>, usize, usize))
    requires
        p <= s.len(),
    ensures
        (r.0@, r.1 as int, r.2 as int) == mantissa(s@, p as int),
        all_digits(r.0@),
        r.2 <= s.len(),
        r.1 <= s.len(),
{
    let whole = digit_run(s, p);
    let dot: usize = p + whole;
    let mut ds = part(s, p, dot);
    if dot < s.len() && s[dot] == '.' {
        let fraction = digit_run(s, dot + 1);
        let end: usize = dot + 1 + fraction;
        let mut tail = part(s, dot + 1, end);
        let ghost head = ds@;
        let ghost back = tail@;
        ds.append(&mut tail);
        proof {
            assert forall|k: int| 0 <= k < ds@.len() implies is_digit(#[trigger] ds@[k]) by {
                if k < head.len() {
                    assert(is_digit(head[k]));
                } else {
                    assert(is_digit(back[k - head.len()]));
                }
            }
        }
        return (ds, fraction, end);
    }
    (ds, 0, dot)
}

/// The exponent from `i` on; one that is far out may come back as another that is far out.
fn read_exponent(s: &Vec<char>, i: usize) -> (r: Option<i128>)
    requires
        i <= s.len(),
    ensures
        match exponent(s@, i as int) {
            None => r is None,
            Some(e) => r is Some && (r->0 == e || (r->0 == 0x1_0000_0000_0000_0000_0000 && e
                > 0x1_0000_0000_0000_0000_0000) || (r->0 == -0x1_0000_0000_0000_0000_0000 && e
                < -0x1_0000_0000_0000_0000_0000)),
        },
        r is Some ==> -0x1_0000_0000_0000_0000_0000 <= r->0 <= 0x1_0000_0000_0000_0000_0000,
{
    if i == s.len() {
        return Some(0);
    }
    if !is_letter(s[i], 'e') {
        return None;
    }
    let x: usize = i + 1 + sign_at(s, i + 1);
    let power = digit_run(s, x);
    if power == 0 || x + power != s.len() {
        return None;
    }
    let es = part(s, x, x + power);
    let e = capped_value(&es, es.len()) as i128;
    proof {
        assert(es@.take(es.len() as int) =~= es@);
        lemma_nat_of_bound(es@);
    }
    if x == i + 2 && s[i + 1] == '-' {
        Some(-e)
    } else {
        Some(e)
    }
}

fn says_infinity(s: &Vec<char>, p: usize) -> (r: bool)
    requires
        p <= s.len(),
    ensures
        r == is_infinity(s@, p as int),
{
    let short = vec!['i', 'n', 'f'];
    let long = vec!['i', 'n', 'f', 'i', 'n', 'i', 't', 'y'];
    proof {
        assert(short@ =~= seq!['i', 'n', 'f']);
        assert(long@ =~= seq!['i', 'n', 'f', 'i', 'n', 'i', 't', 'y']);
    }
    spells_word(s, p, &short) || spells_word(s, p, &long)
}

// --- Two numbers side by side ---

/// The `i`-th digit of a row that zeros follow.
spec fn digit_at(ds: Seq<char>, i: int) -> int {
    if i < ds.len() {
        digit_value(ds[i])
    } else {
        0
    }
}

/// The number that the first `k` digits of a row spell, zeros following it.
spec fn head(ds: Seq<char>, k: int) -> int
    decreases k,
{
    if k <= 0 {
        0
    } else {
        10 * head(ds, k - 1) + digit_at(ds, k - 1)
    }
}

proof fn lemma_head_in(ds: Seq<char>, k: int)
    requires
        0 <= k <= ds.len(),
    ensures
        head(ds, k) == nat_of(ds.take(k)),
    decreases k,
{
    if k > 0 {
        lemma_head_in(ds, k - 1);
        lemma_nat_of_prefix(ds, k - 1);
    } else {
        assert(ds.take(0) =~= Seq::empty());
    }
}

proof fn lemma_head_beyond(ds: Seq<char>, k: int)
    requires
        ds.len() <= k,
    ensures
        head(ds, k) == nat_of(ds) * pow10((k - ds.len()) as nat),
    decreases k,
{
    if k == ds.len() {
        lemma_head_in(ds, k);
        assert(ds.take(k) =~= ds);
        assert(nat_of(ds) * 1 == nat_of(ds));
    } else {
        lemma_head_beyond(ds, k - 1);
        let p = pow10((k - 1 - ds.len()) as nat);
        assert(10 * (nat_of(ds) * p) == nat_of(ds) * (10 * p)) by (nonlinear_arith);
    }
}

/// Once one row is ahead of another it stays ahead.
proof fn lemma_head_stays(a: Seq<char>, b: Seq<char>, from: int, to: int)
    requires
        0 <= from <= to,
        head(a, from) > head(b, from),
    ensures
        head(a, to) > head(b, to),
    decreases to - from,
{
    if from < to {
        lemma_head_stays(a, b, from + 1, to);
    }
}

/// A row that starts with zeros spells what the rest of it spells.
proof fn lemma_zeros_in_front(ds: Seq<char>, z: int)
    requires
        0 <= z <= ds.len(),
        forall|k: int| 0 <= k < z ==> digit_value(#[trigger] ds[k]) == 0,
    ensures
        nat_of(ds) == nat_of(ds.skip(z)),
    decreases z,
{
    if z == 0 {
        assert(ds.skip(0) =~= ds);
    } else {
        lemma_zeros_in_front(ds, z - 1);
        let rest = ds.skip(z - 1);
        lemma_nat_of_split(rest, 1);
        lemma_nat_of_prefix(rest, 0);
        assert(rest.take(0) =~= Seq::empty());
        assert(rest[0] == ds[z - 1]);
        assert(rest.skip(1) =~= ds.skip(z));
        assert(0 * pow10((rest.len() - 1) as nat) == 0);
    }
}

/// A row that does not start with a zero has its full number of digits.
proof fn lemma_first_digit(ds: Seq<char>)
    requires
        ds.len() > 0,
        digit_value(ds[0]) > 0,
    ensures
        nat_of(ds) >= pow10((ds.len() - 1) as nat),
{
    lemma_nat_of_split(ds, 1);
    lemma_nat_of_prefix(ds, 0);
    assert(ds.take(0) =~= Seq::empty());
    lemma_nat_of_bound(ds.skip(1));
    let p = pow10((ds.len() - 1) as nat);
    let d = digit_value(ds[0]);
    lemma_pow10_pos((ds.len() - 1) as nat);
    assert(d * p >= p) by (nonlinear_arith)
        requires
            d >= 1,
            p >= 1,
    ;
}

proof fn lemma_pow10_sum(a: nat, b: nat)
    ensures
        pow10(a + b) == pow10(a) * pow10(b),
    decreases a,
{
    if a > 0 {
        lemma_pow10_sum((a - 1) as nat, b);
        let (p, q) = (pow10((a - 1) as nat), pow10(b));
        assert((10 * p) * q == 10 * (p * q)) by (nonlinear_arith);
    } else {
        assert(1 * pow10(b) == pow10(b));
    }
}

/// Of two numbers the one with more digits before its point is the larger.
proof fn lemma_more_digits(a: Seq<char>, x: nat, b: Seq<char>, y: nat)
    requires
        a.len() > 0,
        digit_value(a[0]) > 0,
        a.len() + x > b.len() + y,
    ensures
        nat_of(a) * pow10(x) > nat_of(b) * pow10(y),
{
    lemma_first_digit(a);
    lemma_nat_of_bound(b);
    lemma_pow10_pos(x);
    lemma_pow10_pos(y);
    let (p, q) = (pow10(x), pow10(y));
    let (m, n) = (nat_of(a), nat_of(b));
    let (big, small) = (pow10((a.len() - 1) as nat), pow10(b.len()));
    lemma_pow10_sum((a.len() - 1) as nat, x);
    lemma_pow10_sum(b.len(), y);
    lemma_pow10_mono(b.len() + y, (a.len() - 1 + x) as nat);
    assert(m * p >= big * p) by (nonlinear_arith)
        requires
            m >= big,
            p >= 1,
    ;
    assert(n * q < small * q) by (nonlinear_arith)
        requires
            n < small,
            q >= 1,
    ;
}

fn digit_of(c: char) -> (r: u32)
    ensures
        r == digit_value(c),
{
    if '0' <= c && c <= '9' {
        c as u32 - 48
    } else {
        0
    }
}

/// A row of digits without the zeros in front.
fn significant(ds: &Vec<char>) -> (r: Vec<char>)
    ensures
        nat_of(r@) == nat_of(ds@),
        r.len() <= ds.len(),
        r.len() > 0 ==> digit_value(r@[0]) > 0,
{
    let mut z: usize = 0;
    while z < ds.len() && digit_of(ds[z]) == 0
        invariant
            z <= ds.len(),
            forall|k: int| 0 <= k < z ==> digit_value(#[trigger] ds@[k]) == 0,
        decreases ds.len() - z,
    {
        z += 1;
    }
    let r = part(ds, z, ds.len());
    proof {
        lemma_zeros_in_front(ds@, z as int);
        assert(r@ =~= ds@.skip(z as int));
    }
    r
}

/// Whether one row of digits, zeros following it, is at least as large as another over `len`
/// digits.
fn leads(a: &Vec<char>, b: &Vec<char>, len: usize) -> (r: bool)
    ensures
        r == (head(a@, len as int) >= head(b@, len as int)),
{
    let mut i: usize = 0;
    while i < len
        invariant
            i <= len,
            head(a@, i as int) == head(b@, i as int),
        decreases len - i,
    {
        let x: u32 = if i < a.len() {
            digit_of(a[i])
        } else {
            0
        };
        let y: u32 = if i < b.len() {
            digit_of(b[i])
        } else {
            0
        };
        if x != y {
            proof {
                if x > y {
                    lemma_head_stays(a@, b@, i + 1, len as int);
                } else {
                    lemma_head_stays(b@, a@, i + 1, len as int);
                }
            }
            return x > y;
        }
        i += 1;
    }
    true
}

fn is_at_least(a: &Vec<char>, x: i128, b: &Vec<char>, y: i128) -> (r: bool)
    requires
        -0x100_0000_0000_0000_0000_0000 <= x <= 0x100_0000_0000_0000_0000_0000,
        -0x100_0000_0000_0000_0000_0000 <= y <= 0x100_0000_0000_0000_0000_0000,
    ensures
        r == at_least(a@, x as int, b@, y as int),
{
    let m = significant(a);
    let n = significant(b);
    let ghost low = if x < y {
        x as int
    } else {
        y as int
    };
    let ghost (p, q) = ((x - low) as nat, (y - low) as nat);
    if n.len() == 0 {
        proof {
            lemma_nat_of_bound(a@);
            lemma_pow10_pos(p);
            let (v, w) = (nat_of(a@), pow10(p));
            assert(v * w >= 0) by (nonlinear_arith)
                requires
                    v >= 0,
                    w >= 1,
            ;
            assert(0 * pow10(q) == 0);
        }
        return true;
    }
    if m.len() == 0 {
        proof {
            lemma_first_digit(n@);
            lemma_pow10_pos((n.len() - 1) as nat);
            lemma_pow10_pos(q);
            let (v, w) = (nat_of(b@), pow10(q));
            assert(v * w > 0) by (nonlinear_arith)
                requires
                    v >= 1,
                    w >= 1,
            ;
            assert(0 * pow10(p) == 0);
        }
        return false;
    }
    let above: i128 = m.len() as i128 + x;
    let other: i128 = n.len() as i128 + y;
    if above > other {
        proof {
            lemma_more_digits(m@, p, n@, q);
        }
        return true;
    }
    if above < other {
        proof {
            lemma_more_digits(n@, q, m@, p);
        }
        return false;
    }
    let len: usize = if m.len() > n.len() {
        m.len()
    } else {
        n.len()
    };
    proof {
        lemma_head_beyond(m@, len as int);
        lemma_head_beyond(n@, len as int);
    }
    leads(&m, &n, len)
}

// --- A whole number text ---

/// Points moved far enough out all read the same.
proof fn lemma_far_reading(negative: bool, ds: Seq<char>, a: int, b: int, places: int)
    requires
        all_digits(ds),
        0 <= places,
        a == b || (a > 20 + TOO_LARGE@.len() && b > 20 + TOO_LARGE@.len()) || (a < -1075 - ds.len()
            - places && b < -1075 - ds.len() - places),
    ensures
        decimal_reading(negative, ds, a, places) == decimal_reading(negative, ds, b, places),
{
    lemma_far_shift(negative, ds, places + a, places + b);
    lemma_nat_of_bound(ds);
    if a != b {
        lemma_far_limits(ds, a);
        lemma_far_limits(ds, b);
    }
}

/// What the limits say of a number whose point is far out.
proof fn lemma_far_limits(ds: Seq<char>, a: int)
    requires
        a > TOO_LARGE@.len() || a < -1075 - ds.len(),
    ensures
        at_least(ds, a, TOO_LARGE@, 0) == (nat_of(TOO_LARGE@) == 0 || (a > 0 && nat_of(ds) > 0)),
        a < 0 || nat_of(ds) == 0 ==> at_least(VANISHING@, -1075, ds, a) == (nat_of(ds) == 0 || nat_of(
            VANISHING@,
        ) > 0),
{
    let (m, top, bottom) = (nat_of(ds), nat_of(TOO_LARGE@), nat_of(VANISHING@));
    lemma_nat_of_bound(ds);
    lemma_nat_of_bound(TOO_LARGE@);
    lemma_nat_of_bound(VANISHING@);
    if a > 0 {
        let (p, q) = (pow10(a as nat), pow10((a + 1075) as nat));
        lemma_pow10_mono(TOO_LARGE@.len(), a as nat);
        lemma_pow10_pos(TOO_LARGE@.len());
        assert(top * 1 == top && bottom * 1 == bottom);
        assert(m > 0 ==> m * p >= p) by (nonlinear_arith)
            requires
                p >= 1,
        ;
        assert(m == 0 ==> m * p == 0 && m * q == 0) by (nonlinear_arith);
    } else {
        let (p, q) = (pow10((-a) as nat), pow10((-1075 - a) as nat));
        lemma_pow10_mono(ds.len(), (-a) as nat);
        lemma_pow10_mono(ds.len(), (-1075 - a) as nat);
        assert(m * 1 == m);
        assert(top > 0 ==> top * p >= p) by (nonlinear_arith)
            requires
                p >= 1,
        ;
        assert(bottom > 0 ==> bottom * q >= q) by (nonlinear_arith)
            requires
                q >= 1,
        ;
        assert(top == 0 ==> top * p == 0) by (nonlinear_arith);
        assert(bottom == 0 ==> bottom * q == 0) by (nonlinear_arith);
    }
}

fn read_decimal(negative: bool, ds: &Vec<char>, shift: i128, places: u32, limit: &Vec<char>) -> (r:
    Reading)
    requires
        all_digits(ds@),
        limit@ == TOO_LARGE@,
        -0x10_0000_0000_0000_0000_0000 <= shift <= 0x10_0000_0000_0000_0000_0000,
    ensures
        r == decimal_reading(negative, ds@, shift as int, places as int),
{
    if is_at_least(ds, shift, limit, 0) {
        return if negative {
            Reading::Below
        } else {
            Reading::Above
        };
    }
    let v = signed_reading(negative, ds, places as i128 + shift);
    if v == 0 && places > 0 && !is_at_least(&chars_of(VANISHING), -1075, ds, shift) {
        return Reading::Value(if negative {
            -1
        } else {
            1
        });
    }
    Reading::Value(v)
}

/// Reads a number in units of the last of `places` decimals, or answers that the text is none.
pub fn read_number(s: &Vec<char>, places: u32) -> (r: Option<Reading>)
    ensures
        r == reading(s@, places as int),
{
    let p = sign_at(s, 0);
    let negative = p == 1 && s[0] == '-';
    if says_infinity(s, p) {
        return Some(if negative {
            Reading::Below
        } else {
            Reading::Above
        });
    }
    let nan = vec!['n', 'a', 'n'];
    proof {
        assert(nan@ =~= seq!['n', 'a', 'n']);
    }
    if spells_word(s, p, &nan) {
        return Some(Reading::NotANumber);
    }
    let (ds, fraction, end) = read_mantissa(s, p);
    if ds.len() == 0 {
        return None;
    }
    match read_exponent(s, end) {
        None => None,
        Some(e) => {
            let limit = chars_of(TOO_LARGE);
            let shift: i128 = e - fraction as i128;
            proof {
                let exact = exponent(s@, end as int)->0 - fraction;
                assert(limit@.len() == limit.len() && ds@.len() == ds.len());
                lemma_far_reading(negative, ds@, shift as int, exact, places as int);
            }
            Some(read_decimal(negative, &ds, shift, places, &limit))
        },
    }
}

// --- What is printed reads back ---

proof fn lemma_decimal(n: nat)
    ensures
        all_digits(number::decimal(n)),
        nat_of(number::decimal(n)) == n,
        number::decimal(n).len() > 0,
    decreases n,
{
    let s = number::decimal(n);
    if n >= 10 {
        lemma_decimal(n / 10);
        assert(s.drop_last() =~= number::decimal(n / 10));
    } else {
        assert(s.drop_last() =~= Seq::empty());
        assert(nat_of(Seq::<char>::empty()) == 0);
    }
}

proof fn lemma_digits(n: nat, places: nat)
    requires
        n < pow10(places),
    ensures
        all_digits(number::digits(n, places)),
        nat_of(number::digits(n, places)) == n,
        number::digits(n, places).len() == places,
    decreases places,
{
    if places > 0 {
        lemma_digits(n / 10, (places - 1) as nat);
        let s = number::digits(n, places);
        assert(s.drop_last() =~= number::digits(n / 10, (places - 1) as nat));
    }
}

proof fn lemma_strip(s: Seq<char>)
    requires
        all_digits(s),
        s.len() > 0,
    ensures
        ({
            let r = number::strip_zeros(s);
            &&& all_digits(r)
            &&& 0 < r.len() <= s.len()
            &&& nat_of(r) * pow10((s.len() - r.len()) as nat) == nat_of(s)
        }),
    decreases s.len(),
{
    let r = number::strip_zeros(s);
    if s.len() > 1 && s.last() == '0' {
        lemma_strip(s.drop_last());
        let (v, p) = (nat_of(r), pow10((s.len() - 1 - r.len()) as nat));
        assert(v * (10 * p) == 10 * (v * p)) by (nonlinear_arith);
    } else {
        assert(nat_of(s) * 1 == nat_of(s));
    }
}

proof fn lemma_limit_is_far()
    ensures
        nat_of(TOO_LARGE@) >= pow10(308),
{
    reveal_strlit(
        "179769313486231580793728971405303415079934132710037826936173778980444968292764750946649017\
        977587207096330286416692887910946555547851940402630657488671505820681908902000708383676273\
        854845817711531764475730270069855571366959622842914819860834936475292719074168444365510704\
        342711559699508093042880177904174497792",
    );
    lemma_first_digit(TOO_LARGE@);
}

/// A decimal fraction in its plainest form: a sign where it is negative, digits, a point and more
/// digits.
pub open spec fn plain(negative: bool, whole: Seq<char>, rest: Seq<char>) -> Seq<char> {
    (if negative {
        seq!['-']
    } else {
        Seq::empty()
    }) + whole + seq!['.'] + rest
}

pub proof fn lemma_plain(negative: bool, whole: Seq<char>, rest: Seq<char>, places: int)
    requires
        all_digits(whole),
        all_digits(rest),
        whole.len() > 0,
        0 < rest.len() <= places,
        nat_of(whole + rest) * pow10((places - rest.len()) as nat) <= i64::MAX,
    ensures
        ({
            let v = nat_of(whole + rest) * pow10((places - rest.len()) as nat);
            reading(plain(negative, whole, rest), places) == Some(
                Reading::Value(if negative {
                    -v
                } else {
                    v
                } as i64),
            )
        }),
{
    let s = plain(negative, whole, rest);
    let p: int = if negative {
        1
    } else {
        0
    };
    let dot = p + whole.len();
    let ds = whole + rest;
    assert(is_digit(whole[0]));
    assert(s[p] == whole[0]);
    assert forall|j: int| p <= j < dot implies is_digit(#[trigger] s[j]) by {
        assert(is_digit(whole[j - p]));
    }
    assert(s[dot] == '.');
    lemma_run_step(s, p, whole.len() as int);
    assert forall|j: int| dot + 1 <= j < s.len() implies is_digit(#[trigger] s[j]) by {
        assert(is_digit(rest[j - dot - 1]));
    }
    lemma_run_step(s, dot + 1, rest.len() as int);
    assert(s.subrange(p, dot) =~= whole);
    assert(s.subrange(dot + 1, dot + 1 + rest.len()) =~= rest);
    assert(seq!['i', 'n', 'f'][0] == 'i');
    assert(seq!['i', 'n', 'f', 'i', 'n', 'i', 't', 'y'][0] == 'i');
    assert(seq!['n', 'a', 'n'][0] == 'n');
    assert(!is_infinity(s, p));
    assert(!spells(s, p, seq!['n', 'a', 'n']));
    lemma_small_is_exact(negative, ds, -(rest.len() as int), places);
}

/// A number that fits its unit exactly reads as itself.
proof fn lemma_small_is_exact(negative: bool, ds: Seq<char>, shift: int, places: int)
    requires
        all_digits(ds),
        shift <= 0 <= places + shift,
        nat_of(ds) * pow10((places + shift) as nat) <= i64::MAX,
    ensures
        ({
            let v = nat_of(ds) * pow10((places + shift) as nat);
            decimal_reading(negative, ds, shift, places) == Reading::Value(if negative {
                -v
            } else {
                v
            } as i64)
        }),
{
    let n = nat_of(ds);
    let p = pow10((places + shift) as nat);
    lemma_nat_of_bound(ds);
    lemma_pow10_pos((places + shift) as nat);
    lemma_scale_grows(n, (places + shift) as nat);
    assert(n * p >= 0 && n <= i64::MAX);
    lemma_limit_is_far();
    lemma_pow10_mono(20, 308);
    assert(pow10(20) == 100_000_000_000_000_000_000) by {
        reveal_with_fuel(pow10, 21);
    }
    let top = nat_of(TOO_LARGE@);
    lemma_scale_grows(top, (-shift) as nat);
    assert(n * pow10(0) == n);
    assert(!at_least(ds, shift, TOO_LARGE@, 0));
    if n * p == 0 {
        assert(n == 0) by (nonlinear_arith)
            requires
                n * p == 0,
                p >= 1,
        ;
        lemma_nat_of_bound(VANISHING@);
        let low = if -1075 < shift {
            -1075int
        } else {
            shift
        };
        let (x, y) = (pow10((-1075 - low) as nat), pow10((shift - low) as nat));
        lemma_pow10_pos((-1075 - low) as nat);
        assert(nat_of(VANISHING@) * x >= 0) by (nonlinear_arith)
            requires
                nat_of(VANISHING@) >= 0,
                x >= 1,
        ;
        assert(n * y == 0) by (nonlinear_arith)
            requires
                n == 0,
        ;
        assert(at_least(VANISHING@, -1075, ds, shift));
    }
}

/// A whole number in decimal reads as itself, in whatever unit it is read.
pub proof fn law_whole_numbers_read_back(n: nat, places: nat)
    requires
        n * pow10(places) <= i64::MAX,
    ensures
        reading(number::decimal(n), places as int) == Some(Reading::Value((n * pow10(places)) as i64)),
{
    let s = number::decimal(n);
    lemma_decimal(n);
    assert(is_digit(s[0]));
    assert forall|j: int| 0 <= j < s.len() implies is_digit(#[trigger] s[j]) by {}
    lemma_run_step(s, 0, s.len() as int);
    assert(s.subrange(0, s.len() as int) =~= s);
    assert(seq!['i', 'n', 'f'][0] == 'i');
    assert(seq!['i', 'n', 'f', 'i', 'n', 'i', 't', 'y'][0] == 'i');
    assert(seq!['n', 'a', 'n'][0] == 'n');
    assert(!is_infinity(s, 0));
    assert(!spells(s, 0, seq!['n', 'a', 'n']));
    lemma_small_is_exact(false, s, 0, places as int);
}

/// A quotient that is printed as a filter argument reads, in millionths, as a number within a
/// millionth of itself.
pub proof fn law_ratios_read_back(n: int, d: int)
    requires
        d > 0,
        -0x1_0000_0000 * d <= n <= 0x1_0000_0000 * d,
    ensures
        reading(number::ratio_text(n, d), 6) matches Some(Reading::Value(m)) && -d <= m * d - n * 1_000_000
            <= d,
{
    let size = number::abs(n);
    let m = number::printed(size, d, 1_000_000);
    number::law_print_is_near(size, d, 1_000_000);
    assert(m <= 4_294_967_296_000_001) by (nonlinear_arith)
        requires
            m * d - size * 1_000_000 <= d,
            size <= 0x1_0000_0000 * d,
            d > 0,
    ;
    let (w, f) = ((m / 1_000_000) as nat, (m % 1_000_000) as nat);
    assert(pow10(6) == 1_000_000) by {
        reveal_with_fuel(pow10, 7);
    }
    lemma_decimal(w);
    lemma_digits(f, 6);
    let (whole, all) = (number::decimal(w), number::digits(f, 6));
    let rest = number::strip_zeros(all);
    lemma_strip(all);
    lemma_nat_of_split(whole + rest, whole.len() as int);
    assert((whole + rest).take(whole.len() as int) =~= whole);
    assert((whole + rest).skip(whole.len() as int) =~= rest);
    let (x, y) = (pow10(rest.len()), pow10((6 - rest.len()) as nat));
    lemma_pow10_sum(rest.len(), (6 - rest.len()) as nat);
    assert(rest.len() + (6 - rest.len()) as nat == 6);
    assert((w * x + nat_of(rest)) * y == w * (x * y) + nat_of(rest) * y) by (nonlinear_arith);
    assert(nat_of(whole + rest) * y == m);
    assert(number::ratio_text(n, d) =~= plain(n < 0, whole, rest));
    lemma_plain(n < 0, whole, rest, 6);
    if n < 0 {
        assert((-m) * d - n * 1_000_000 == -(m * d - size * 1_000_000)) by (nonlinear_arith)
            requires
                size == -n,
        ;
    }
}

/// A time that is printed reads, in milliseconds, as a number within half a millisecond of
/// itself, a double's own slack allowed; a time before the start reads as the start.
pub proof fn law_times_read_back(v: int)
    requires
        v <= 4_000_000_000_000_000_000,
    ensures
        reading(number::time_text(v), 3) matches Some(Reading::Value(m)) && m >= 0 && (if v <= 0 {
            m == 0
        } else {
            -500_500 <= m * 1_000_000 - v <= 500_500
        }),
{
    let size = if v < 0 {
        0
    } else {
        v
    };
    let m = number::printed(size, number::ONE as int, 1000);
    number::law_print_is_near(size, number::ONE as int, 1000);
    let (w, f) = ((m / 1000) as nat, (m % 1000) as nat);
    assert(pow10(3) == 1000) by {
        reveal_with_fuel(pow10, 4);
    }
    lemma_decimal(w);
    lemma_digits(f, 3);
    let (whole, rest) = (number::decimal(w), number::digits(f, 3));
    lemma_nat_of_split(whole + rest, whole.len() as int);
    assert((whole + rest).take(whole.len() as int) =~= whole);
    assert((whole + rest).skip(whole.len() as int) =~= rest);
    assert(pow10(0) == 1 && rest.len() == 3);
    let one = pow10(3);
    assert(w * one == w * 1000) by (nonlinear_arith)
        requires
            one == 1000,
    ;
    assert((whole + rest).len() - whole.len() == 3);
    assert(nat_of(whole + rest) == m);
    assert(nat_of(whole + rest) * pow10((3 - rest.len()) as nat) == m);
    assert(number::time_text(v) =~= plain(false, whole, rest));
    lemma_plain(false, whole, rest, 3);
}

/// A time that is printed reads in millionths as the milliseconds it is printed in.
pub proof fn law_times_read_back_finer(v: int)
    requires
        v <= 4_000_000_000_000_000_000,
    ensures
        reading(number::time_text(v), 6) matches Some(Reading::Value(m)) && m >= 0 && (if v <= 0 {
            m == 0
        } else {
            -500_500 <= m * 1000 - v <= 500_500
        }),
{
    let size = if v < 0 {
        0
    } else {
        v
    };
    let m = number::printed(size, number::ONE as int, 1000);
    number::law_print_is_near(size, number::ONE as int, 1000);
    let (w, f) = ((m / 1000) as nat, (m % 1000) as nat);
    assert(pow10(3) == 1000) by {
        reveal_with_fuel(pow10, 4);
    }
    lemma_decimal(w);
    lemma_digits(f, 3);
    let (whole, rest) = (number::decimal(w), number::digits(f, 3));
    lemma_nat_of_split(whole + rest, whole.len() as int);
    assert((whole + rest).take(whole.len() as int) =~= whole);
    assert((whole + rest).skip(whole.len() as int) =~= rest);
    let one = pow10(3);
    assert(w * one == w * 1000) by (nonlinear_arith)
        requires
            one == 1000,
    ;
    assert((whole + rest).len() - whole.len() == 3);
    assert(nat_of(whole + rest) == m);
    assert(m * one == m * 1000) by (nonlinear_arith)
        requires
            one == 1000,
    ;
    assert(pow10((6 - rest.len()) as nat) == one);
    assert(number::time_text(v) =~= plain(false, whole, rest));
    lemma_plain(false, whole, rest, 6);
}

/// A quotient that is printed with six decimals reads as the nearest millionth to it.
pub proof fn law_six_decimals_read_back(n: int, d: int)
    requires
        0 <= n <= 1_000_000 * d,
        d > 0,
    ensures
        reading(sysutil::six_decimals(n, d), 6) matches Some(Reading::Value(m)) && -d <= 2 * (m * d - n * 1_000_000)
            <= d,
{
    let m = number::nearest_even(n * 1_000_000, d);
    number::lemma_even_near(n * 1_000_000, d);
    assert(m <= 1_000_000_000_001) by (nonlinear_arith)
        requires
            2 * (m * d - n * 1_000_000) <= d,
            n <= 1_000_000 * d,
            d > 0,
    ;
    let (w, f) = ((m / 1_000_000) as nat, (m % 1_000_000) as nat);
    assert(pow10(6) == 1_000_000) by {
        reveal_with_fuel(pow10, 7);
    }
    lemma_decimal(w);
    lemma_digits(f, 6);
    let (whole, rest) = (number::decimal(w), number::digits(f, 6));
    lemma_nat_of_split(whole + rest, whole.len() as int);
    assert((whole + rest).take(whole.len() as int) =~= whole);
    assert((whole + rest).skip(whole.len() as int) =~= rest);
    let one = pow10(6);
    assert(w * one == w * 1_000_000) by (nonlinear_arith)
        requires
            one == 1_000_000,
    ;
    assert((whole + rest).len() - whole.len() == 6);
    assert(nat_of(whole + rest) == m);
    assert(pow10(0) == 1 && rest.len() == 6);
    assert(nat_of(whole + rest) * pow10((6 - rest.len()) as nat) == m);
    reveal_strlit(".");
    assert("."@ =~= seq!['.']);
    assert(sysutil::six_decimals(n, d) =~= plain(false, whole, rest));
    lemma_plain(false, whole, rest, 6);
}

} // verus!
