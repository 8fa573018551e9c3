//! FFmpeg's progress report, read a line at a time.
//!
//! FFmpeg writes `key=value` lines in blocks; `progress` closes each block, so it is where the
//! values belong together.

use vstd::prelude::*;
use vstd::string::*;

use crate::number;
use crate::number::{clamp64, div_round, ONE};
use crate::reading;
use crate::reading::{read_number, Reading};
use crate::text;
use crate::text::{back, chars_between, chars_of, find_char, split, text_of, trim_chars, CharSet};

verus! {

/// What is known of a running export.
#[derive(Clone, Copy)]
pub struct ProgressReader {
    /// How much of the finished clip is written.
    pub written: Reading,
    /// How fast it is going, once FFmpeg has said.
    pub speed: Option<Reading>,
    /// Some builds report only `out_time`; once a microsecond key has been seen the text one is
    /// ignored.
    pub micros_seen: bool,
}

/// What the user is shown of a running export.
#[derive(Clone, Copy)]
pub struct ExportProgress {
    /// The share that is done, from 0 to 1.
    pub percent: Reading,
    pub speed: Option<Reading>,
    pub eta_seconds: Option<Reading>,
}

// --- One line ---

/// A line's key and value; `None` where there is no `=`.
pub open spec fn key_value(line: Seq<char>) -> Option<(Seq<char>, Seq<char>)> {
    let s = text::trimmed(line);
    let n = text::next_at(s, '=', 0);
    if n < s.len() {
        Some((s.take(n), s.skip(n + 1)))
    } else {
        None
    }
}

/// Sixty times one reading and another.
pub open spec fn sixty_and(a: Reading, b: Reading) -> Reading {
    match (a, b) {
        (Reading::Value(x), Reading::Value(y)) => Reading::Value(number::sat(60 * x + y) as i64),
        (Reading::NotANumber, _) => Reading::NotANumber,
        (_, Reading::NotANumber) => Reading::NotANumber,
        (Reading::Above, Reading::Below) => Reading::NotANumber,
        (Reading::Below, Reading::Above) => Reading::NotANumber,
        (Reading::Value(_), other) => other,
        (other, _) => other,
    }
}

/// The first `k` parts of a timestamp, in seconds; `None` where one of them is no number.
pub open spec fn clock(parts: Seq<Seq<char>>, k: int) -> Option<Reading>
    decreases k,
{
    if k <= 0 {
        Some(Reading::Value(0))
    } else {
        match (clock(parts, k - 1), reading::reading(parts[k - 1], 9)) {
            (Some(a), Some(b)) => Some(sixty_and(a, b)),
            _ => None,
        }
    }
}

/// "00:01:02.345678" is 62.345678; the "N/A" before the first frame is nothing.
pub open spec fn timestamp(value: Seq<char>) -> Option<Reading> {
    let parts = text::pieces(text::trimmed(value), ':');
    clock(parts, parts.len() as int)
}

/// What a line leaves known. The keys for microseconds and, by a quirk of the writer, for
/// milliseconds both carry microseconds.
pub open spec fn after_line(p: ProgressReader, line: Seq<char>) -> ProgressReader {
    match key_value(line) {
        None => p,
        Some((key, value)) => if key == "out_time_us"@ || key == "out_time_ms"@ {
            match reading::reading(value, 3) {
                Some(t) => ProgressReader { written: t, micros_seen: true, ..p },
                None => p,
            }
        } else if key == "out_time"@ {
            match timestamp(value) {
                Some(t) => if p.micros_seen {
                    p
                } else {
                    ProgressReader { written: t, ..p }
                },
                None => p,
            }
        } else if key == "speed"@ {
            ProgressReader {
                speed: reading::reading(
                    text::trim_back(text::trimmed(value), CharSet::One('x')),
                    9,
                ),
                ..p
            }
        } else {
            p
        },
    }
}

/// The share of `total` that is written.
pub open spec fn share_done(written: Reading, total: int) -> Reading {
    match written {
        Reading::Value(v) => if total <= 0 || v <= 0 {
            Reading::Value(0)
        } else if v >= total {
            Reading::Value(ONE)
        } else {
            Reading::Value(number::nearest(v * ONE, total) as i64)
        },
        Reading::Above => Reading::Value(if total > 0 {
            ONE
        } else {
            0
        }),
        Reading::Below => Reading::Value(0),
        Reading::NotANumber => if total > 0 {
            Reading::NotANumber
        } else {
            Reading::Value(0)
        },
    }
}

/// How long the rest takes at `rate`; unknown without one.
pub open spec fn time_left(written: Reading, total: int, rate: Option<Reading>) -> Option<Reading> {
    let left = match written {
        Reading::Value(v) => if total > v {
            Reading::Value(number::sat(total - v) as i64)
        } else {
            Reading::Value(0)
        },
        Reading::Below => Reading::Above,
        _ => Reading::Value(0),
    };
    match (left, rate) {
        (Reading::Value(l), Some(Reading::Value(r))) => if r > 0 {
            Some(Reading::Value(number::sat(number::nearest(l * ONE, r as int)) as i64))
        } else {
            None
        },
        (_, Some(Reading::Value(r))) => if r > 0 {
            Some(Reading::Above)
        } else {
            None
        },
        (Reading::Value(_), Some(Reading::Above)) => Some(Reading::Value(0)),
        (_, Some(Reading::Above)) => Some(Reading::NotANumber),
        _ => None,
    }
}

/// What a line gives the user to see: something at the end of a block, unless the last word was
/// only just given and this is not the end of the export.
pub open spec fn shown(p: ProgressReader, line: Seq<char>, total: int, recent: bool) -> Option<
    ExportProgress,
> {
    match key_value(line) {
        None => None,
        Some((key, value)) => {
            let ended = text::trimmed(value) == "end"@;
            if key != "progress"@ || (recent && !ended) {
                None
            } else if ended {
                Some(
                    ExportProgress {
                        percent: Reading::Value(ONE),
                        speed: p.speed,
                        eta_seconds: Some(Reading::Value(0)),
                    },
                )
            } else {
                Some(
                    ExportProgress {
                        percent: share_done(p.written, total),
                        speed: p.speed,
                        eta_seconds: time_left(p.written, total, p.speed),
                    },
                )
            }
        },
    }
}

// --- Reading ---

fn split_line(line: &str) -> (r: Option<(Vec<char>, Vec<char>)>)
    ensures
        r is Some <==> key_value(line@) is Some,
        r matches Some((k, v)) ==> k@ == (key_value(line@)->0).0 && v@ == (key_value(line@)->0).1,
{
    let s = trim_chars(chars_of(line), &CharSet::White);
    let at = find_char(&s, '=', 0);
    if at == s.len() {
        return None;
    }
    let key = chars_between(&s, 0, at);
    let value = chars_between(&s, at + 1, s.len());
    proof {
        assert(key@ =~= s@.take(at as int));
        assert(value@ =~= s@.skip(at + 1));
    }
    Some((key, value))
}

fn add_sixty(a: Reading, b: Reading) -> (r: Reading)
    ensures
        r == sixty_and(a, b),
{
    match (a, b) {
        (Reading::Value(x), Reading::Value(y)) => Reading::Value(
            clamp64(60 * x as i128 + y as i128),
        ),
        (Reading::NotANumber, _) => Reading::NotANumber,
        (_, Reading::NotANumber) => Reading::NotANumber,
        (Reading::Above, Reading::Below) => Reading::NotANumber,
        (Reading::Below, Reading::Above) => Reading::NotANumber,
        (Reading::Value(_), other) => other,
        (other, _) => other,
    }
}

fn timestamp_of(value: Vec<char>) -> (r: Option<Reading>)
    ensures
        r == timestamp(value@),
{
    let parts = split(&trim_chars(value, &CharSet::White), ':');
    let ghost spelled = text::spelled(parts@);
    let mut seconds = Reading::Value(0);
    let mut i: usize = 0;
    while i < parts.len()
        invariant
            i <= parts.len(),
            spelled == text::spelled(parts@),
            clock(spelled, i as int) == Some(seconds),
            spelled == text::pieces(text::trimmed(value@), ':'),
        decreases parts.len() - i,
    {
        let part = read_number(&parts[i], 9);
        proof {
            assert(spelled[i as int] == parts@[i as int]@);
        }
        match part {
            Some(p) => {
                seconds = add_sixty(seconds, p);
            },
            None => {
                proof {
                    lemma_clock_none(spelled, i + 1, spelled.len() as int);
                }
                return None;
            },
        }
        i += 1;
    }
    Some(seconds)
}

proof fn lemma_clock_none(parts: Seq<Seq<char>>, k: int, n: int)
    requires
        0 <= k <= n,
        clock(parts, k) is None,
    ensures
        clock(parts, n) is None,
    decreases n - k,
{
    if k < n {
        lemma_clock_none(parts, k + 1, n);
    }
}

/// A timestamp of hours, minutes and seconds, in billionths of a second.
pub fn parse_timestamp(value: &str) -> (r: Option<Reading>)
    ensures
        r == timestamp(value@),
{
    timestamp_of(chars_of(value))
}

fn done(written: Reading, total: i64) -> (r: Reading)
    ensures
        r == share_done(written, total as int),
{
    match written {
        Reading::Value(v) => {
            if total <= 0 || v <= 0 {
                return Reading::Value(0);
            }
            if v >= total {
                return Reading::Value(ONE);
            }
            let part: i128 = div_round(v as i128 * 1_000_000_000, total as i128);
            proof {
                let n = v * ONE;
                number::lemma_nearest_parts(n, total as int);
                vstd::arithmetic::div_mod::lemma_fundamental_div_mod(n, total as int);
                let q = n / (total as int);
                assert(q < ONE) by (nonlinear_arith)
                    requires
                        n == total * q + n % (total as int),
                        0 <= n % (total as int),
                        n < ONE * total,
                        total > 0,
                ;
            }
            Reading::Value(part as i64)
        },
        Reading::Above => Reading::Value(if total > 0 {
            ONE
        } else {
            0
        }),
        Reading::Below => Reading::Value(0),
        Reading::NotANumber => if total > 0 {
            Reading::NotANumber
        } else {
            Reading::Value(0)
        },
    }
}

fn remaining(written: Reading, total: i64, rate: Option<Reading>) -> (r: Option<Reading>)
    ensures
        r == time_left(written, total as int, rate),
{
    let left = match written {
        Reading::Value(v) => if total > v {
            Reading::Value(clamp64(total as i128 - v as i128))
        } else {
            Reading::Value(0)
        },
        Reading::Below => Reading::Above,
        _ => Reading::Value(0),
    };
    match (left, rate) {
        (Reading::Value(l), Some(Reading::Value(r))) => if r > 0 {
            Some(Reading::Value(clamp64(div_round(l as i128 * 1_000_000_000, r as i128))))
        } else {
            None
        },
        (_, Some(Reading::Value(r))) => if r > 0 {
            Some(Reading::Above)
        } else {
            None
        },
        (Reading::Value(_), Some(Reading::Above)) => Some(Reading::Value(0)),
        (_, Some(Reading::Above)) => Some(Reading::NotANumber),
        _ => None,
    }
}

impl ProgressReader {
    /// A reader of an export that has just begun.
    pub fn new() -> (r: ProgressReader)
        ensures
            r == (ProgressReader { written: Reading::Value(0), speed: None, micros_seen: false }),
    {
        ProgressReader { written: Reading::Value(0), speed: None, micros_seen: false }
    }

    /// Takes in one line of a report on a clip `total` long. `recent` says that the user was shown
    /// something less than [`MIN_EMIT_MILLIS`] ago.
    pub fn read_progress(&mut self, line: &str, total: i64, recent: bool) -> (r: Option<ExportProgress>)
        ensures
            *final(self) == after_line(*old(self), line@),
            r == shown(*old(self), line@, total as int, recent),
    {
        let (key, value) = match split_line(line) {
            Some(pair) => pair,
            None => {
                return None;
            },
        };
        let key_text = text_of(&key);
        let name = key_text.as_str();
        if *name == *"out_time_us" || *name == *"out_time_ms" {
            proof {
                reveal_strlit("out_time_us");
                reveal_strlit("out_time_ms");
                reveal_strlit("progress");
                assert("out_time_us"@.len() != "progress"@.len());
                assert("out_time_ms"@.len() != "progress"@.len());
            }
            if let Some(t) = read_number(&value, 3) {
                self.written = t;
                self.micros_seen = true;
            }
            return None;
        }
        if *name == *"out_time" {
            proof {
                reveal_strlit("out_time");
                reveal_strlit("progress");
                assert("out_time"@[0] != "progress"@[0]);
            }
            let t = timestamp_of(value);
            if !self.micros_seen {
                if let Some(seconds) = t {
                    self.written = seconds;
                }
            }
            return None;
        }
        if *name == *"speed" {
            proof {
                reveal_strlit("speed");
                reveal_strlit("progress");
                assert("speed"@.len() != "progress"@.len());
            }
            let number = back(trim_chars(value, &CharSet::White), &CharSet::One('x'));
            self.speed = read_number(&number, 9);
            return None;
        }
        if !(*name == *"progress") {
            return None;
        }
        let word = text_of(&trim_chars(value, &CharSet::White));
        let ended = *word.as_str() == *"end";
        if ended {
            return Some(
                ExportProgress {
                    percent: Reading::Value(ONE),
                    speed: self.speed,
                    eta_seconds: Some(Reading::Value(0)),
                },
            );
        }
        if recent {
            return None;
        }
        Some(
            ExportProgress {
                percent: done(self.written, total),
                speed: self.speed,
                eta_seconds: remaining(self.written, total, self.speed),
            },
        )
    }
}

/// FFmpeg writes several hundred progress blocks a second on a hardware encoder; the user is
/// shown one at most this often.
pub const MIN_EMIT_MILLIS: u64 = 50;

/// Whether the user was shown something only just now, from how long ago that was.
pub fn is_recent(shown_millis_ago: Option<u64>) -> (r: bool)
    ensures
        r == (shown_millis_ago matches Some(age) && age < MIN_EMIT_MILLIS),
{
    match shown_millis_ago {
        Some(age) => age < MIN_EMIT_MILLIS,
        None => false,
    }
}

/// What is shown of the share done always lies between nothing and all of it, and is all of it at
/// the end.
pub proof fn law_percent_is_a_share(p: ProgressReader, line: Seq<char>, total: int, recent: bool)
    ensures
        shown(p, line, total, recent) matches Some(e) ==> {
            &&& e.percent matches Reading::Value(v) ==> 0 <= v <= ONE
            &&& e.percent is Value || e.percent is NotANumber
            &&& e.percent is NotANumber ==> p.written is NotANumber
        },
{
    if let Reading::Value(v) = p.written {
        if 0 < v < total {
            let n = v * ONE;
            number::lemma_nearest_parts(n, total);
            vstd::arithmetic::div_mod::lemma_fundamental_div_mod(n, total);
            let q = n / total;
            assert(q < ONE) by (nonlinear_arith)
                requires
                    n == total * q + n % total,
                    0 <= n % total,
                    n < ONE * total,
                    total > 0,
            ;
        }
    }
}

// --- What the lines of a report mean ---

/// A line that starts with a key and an equals sign gives the key its value, white space at the
/// end left out.
proof fn lemma_key_value(key: Seq<char>, value: Seq<char>)
    requires
        key.len() > 0,
        !text::white(key[0]),
        !key.contains('='),
    ensures
        key_value(key + seq!['='] + value) == Some((key, text::trim_back(value, CharSet::White))),
{
    let head = key + seq!['='];
    let line = head + value;
    let kept = text::trim_back(value, CharSet::White);
    assert(line[0] == key[0]);
    assert(text::trim_front(line, CharSet::White) == line);
    text::lemma_trim_behind(head, value, CharSet::White);
    let s = head + kept;
    assert(text::trimmed(line) == s);
    text::lemma_next_at(s, '=', 0);
    let n = text::next_at(s, '=', 0);
    assert(s[key.len() as int] == '=');
    if n < key.len() {
        assert(key[n] == s[n]);
        assert(key.contains('='));
    }
    assert(n == key.len());
    assert(s.take(n) =~= key);
    assert(s.skip(n + 1) =~= kept);
}

/// Text that ends in a digit has no white space at its end.
proof fn lemma_number_is_trimmed(s: Seq<char>)
    requires
        s.len() > 0,
        '0' <= s.last() <= '9',
    ensures
        text::trim_back(s, CharSet::White) == s,
{
}

proof fn lemma_decimal_ends_in_a_digit(n: nat)
    ensures
        number::decimal(n).len() > 0,
        '0' <= number::decimal(n).last() <= '9',
{
}

proof fn lemma_micro_keys()
    ensures
        "out_time_us"@.len() == 11,
        "out_time_ms"@.len() == 11,
        "out_time_us"@[0] == 'o',
        "out_time_ms"@[0] == 'o',
        !"out_time_us"@.contains('='),
        !"out_time_ms"@.contains('='),
{
    reveal_strlit("out_time_us");
    reveal_strlit("out_time_ms");
}

/// The two keys that carry microseconds mean the same, whatever they carry and whatever is known
/// before. A whole number of microseconds is so many thousand billionths of a second.
pub proof fn law_both_microsecond_keys_agree(p: ProgressReader, value: Seq<char>, n: nat)
    ensures
        after_line(p, "out_time_us"@ + seq!['='] + value) == after_line(
            p,
            "out_time_ms"@ + seq!['='] + value,
        ),
        value == number::decimal(n) && 1000 * n <= i64::MAX ==> after_line(
            p,
            "out_time_us"@ + seq!['='] + value,
        ) == (ProgressReader {
            written: Reading::Value((1000 * n) as i64),
            speed: p.speed,
            micros_seen: true,
        }),
{
    lemma_micro_keys();
    lemma_key_value("out_time_us"@, value);
    lemma_key_value("out_time_ms"@, value);
    if value == number::decimal(n) && 1000 * n <= i64::MAX {
        lemma_decimal_ends_in_a_digit(n);
        lemma_number_is_trimmed(value);
        assert(reading::pow10(3) == 1000) by {
            reveal_with_fuel(reading::pow10, 4);
        }
        let one = reading::pow10(3);
        assert(n * one == 1000 * n) by (nonlinear_arith)
            requires
                one == 1000,
        ;
        reading::law_whole_numbers_read_back(n, 3);
    }
}

/// A block that does not end the export shows how far it is: the share done times the clip's
/// length gives what is written back, and the time left times the speed gives what is still to be
/// written, each to the nearest billionth. Shown too soon after the last, a block shows nothing.
pub proof fn law_a_block_shows_how_far_it_is(p: ProgressReader, total: int, written: i64, speed: i64)
    requires
        p.written == Reading::Value(written),
        p.speed == Some(Reading::Value(speed)),
        speed > 0,
        0 <= written <= total <= i64::MAX,
        0 < total,
    ensures
        ({
            let line = "progress"@ + seq!['='] + "continue"@;
            &&& shown(p, line, total, true) is None
            &&& shown(p, line, total, false) matches Some(e) && {
                &&& e.speed == p.speed
                &&& e.percent matches Reading::Value(share) && -total <= 2 * (share * total - written
                    * 1_000_000_000) <= total
                &&& e.eta_seconds matches Some(Reading::Value(left)) && (left < i64::MAX ==> -speed <= 2 * (left
                    * speed - (total - written) * 1_000_000_000) <= speed)
            }
            &&& after_line(p, line) == p
        }),
{
    lemma_progress_words();
    lemma_key_value("progress"@, "continue"@);
    let word = "continue"@;
    assert(text::trim_back(word, CharSet::White) == word);
    assert(text::trim_front(word, CharSet::White) == word);
    number::lemma_near(written * ONE, total);
    number::lemma_near((total - written) * ONE, speed as int);
    let e = shown(p, "progress"@ + seq!['='] + word, total, false)->0;
    if written == 0 {
        assert(0 * total == 0);
    } else if written == total {
        assert(ONE * total == total * ONE) by (nonlinear_arith);
    } else {
        let n = written * ONE;
        let x = number::nearest(n, total);
        number::lemma_nearest_keeps_order(n, total * ONE, total);
        assert(x <= ONE) by (nonlinear_arith)
            requires
                2 * (x * total - written * 1_000_000_000) <= total,
                written <= total - 1,
                total > 0,
                ONE == 1_000_000_000,
        ;
    }
}

/// The end of a report shows all of the clip done and nothing left, however far it was said to be.
pub proof fn law_the_end_is_all_of_it(p: ProgressReader, total: int, recent: bool)
    ensures
        shown(p, "progress"@ + seq!['='] + "end"@, total, recent) matches Some(e) && e.percent
            == Reading::Value(1_000_000_000) && e.eta_seconds == Some(Reading::Value(0)) && e.speed == p.speed,
{
    lemma_progress_words();
    lemma_key_value("progress"@, "end"@);
    let word = "end"@;
    assert(text::trim_back(word, CharSet::White) == word);
    assert(text::trim_front(word, CharSet::White) == word);
}

proof fn lemma_progress_words()
    ensures
        "progress"@.len() == 8,
        "progress"@[0] == 'p',
        !"progress"@.contains('='),
        "continue"@.len() == 8,
        "continue"@[0] == 'c',
        "continue"@.last() == 'e',
        "end"@.len() == 3,
        "end"@[0] == 'e',
        "end"@.last() == 'd',
        "out_time_us"@.len() == 11,
        "out_time_ms"@.len() == 11,
        "out_time"@[0] == 'o',
        "out_time"@.len() == 8,
        !"out_time"@.contains('='),
        "speed"@.len() == 5,
        "speed"@[0] == 's',
        !"speed"@.contains('='),
{
    reveal_strlit("progress");
    reveal_strlit("continue");
    reveal_strlit("end");
    reveal_strlit("out_time_us");
    reveal_strlit("out_time_ms");
    reveal_strlit("out_time");
    reveal_strlit("speed");
}

proof fn lemma_decimal_plain(n: nat)
    ensures
        number::decimal(n).len() > 0,
        forall|i: int| 0 <= i < number::decimal(n).len() ==> '0' <= #[trigger] number::decimal(n)[i] <= '9',
    decreases n,
{
    if n >= 10 {
        lemma_decimal_plain(n / 10);
        let (s, t) = (number::decimal(n), number::decimal(n / 10));
        assert forall|i: int| 0 <= i < s.len() implies '0' <= #[trigger] s[i] <= '9' by {
            if i < t.len() {
                assert(s[i] == t[i]);
            }
        }
    }
}

/// A time of day written as hours, minutes and seconds is so many seconds. It counts as written
/// only as long as no key has said it in microseconds.
pub proof fn law_a_timestamp_counts_in_sixties(p: ProgressReader, h: nat, m: nat, s: nat)
    requires
        h <= 1_000_000,
        m <= 1_000_000,
        s <= 1_000_000,
    ensures
        ({
            let stamp = number::decimal(h) + seq![':'] + (number::decimal(m) + seq![':'] + number::decimal(s));
            let seconds = Reading::Value(((3600 * h + 60 * m + s) * 1_000_000_000) as i64);
            &&& timestamp(stamp) == Some(seconds)
            &&& after_line(p, "out_time"@ + seq!['='] + stamp).written == (if p.micros_seen {
                p.written
            } else {
                seconds
            })
        }),
{
    let (x, y, z) = (number::decimal(h), number::decimal(m), number::decimal(s));
    let stamp = x + seq![':'] + (y + seq![':'] + z);
    lemma_decimal_plain(h);
    lemma_decimal_plain(m);
    lemma_decimal_plain(s);
    assert(!x.contains(':') && !y.contains(':') && !z.contains(':'));
    assert(stamp[0] == x[0] && stamp.last() == z.last());
    assert(text::trim_front(stamp, CharSet::White) == stamp);
    assert(text::trim_back(stamp, CharSet::White) == stamp);
    text::lemma_pieces_split(x, y + seq![':'] + z, ':');
    text::lemma_pieces_split(y, z, ':');
    text::lemma_pieces_split(z, z, ':');
    let parts = text::pieces(stamp, ':');
    assert(parts =~= seq![x, y, z]);
    assert(reading::pow10(9) == 1_000_000_000) by {
        reveal_with_fuel(reading::pow10, 10);
    }
    let one = reading::pow10(9);
    assert(h * one == h * 1_000_000_000 && m * one == m * 1_000_000_000 && s * one == s * 1_000_000_000)
        by (nonlinear_arith)
        requires
            one == 1_000_000_000,
    ;
    reading::law_whole_numbers_read_back(h, 9);
    reading::law_whole_numbers_read_back(m, 9);
    reading::law_whole_numbers_read_back(s, 9);
    reveal_with_fuel(clock, 4);
    lemma_progress_words();
    lemma_key_value("out_time"@, stamp);
}

/// A speed is written with an `x` behind it.
pub proof fn law_a_speed_is_a_number_of_times(p: ProgressReader, n: nat)
    requires
        n <= 1_000_000_000,
    ensures
        after_line(p, "speed"@ + seq!['='] + number::decimal(n) + seq!['x']) == (ProgressReader {
            speed: Some(Reading::Value((n * 1_000_000_000) as i64)),
            written: p.written,
            micros_seen: p.micros_seen,
        }),
{
    let d = number::decimal(n);
    let value = d + seq!['x'];
    lemma_decimal_plain(n);
    lemma_progress_words();
    lemma_key_value("speed"@, value);
    assert("speed"@ + seq!['='] + d + seq!['x'] =~= "speed"@ + seq!['='] + value);
    assert(value[0] == d[0] && value.last() == 'x');
    assert(text::trim_back(value, CharSet::White) == value);
    assert(text::trim_front(value, CharSet::White) == value);
    assert(value.drop_last() =~= d);
    assert(text::trim_back(d, CharSet::One('x')) == d);
    reveal_with_fuel(text::trim_back, 2);
    assert(text::trim_back(value, CharSet::One('x')) == d);
    assert(reading::pow10(9) == 1_000_000_000) by {
        reveal_with_fuel(reading::pow10, 10);
    }
    let one = reading::pow10(9);
    assert(n * one == n * 1_000_000_000) by (nonlinear_arith)
        requires
            one == 1_000_000_000,
    ;
    reading::law_whole_numbers_read_back(n, 9);
}

/// The user is shown something new at most twenty times a second.
pub proof fn law_blocks_are_shown_in_moderation()
    ensures
        MIN_EMIT_MILLIS == 50,
{
}

} // verus!
