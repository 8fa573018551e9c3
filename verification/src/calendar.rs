//! A moment as a date and a time of day.

use vstd::prelude::*;
use vstd::string::*;

use crate::number;
use crate::number::{push_decimal, push_digits};
use crate::text;

verus! {

// --- The calendar ---

pub open spec fn is_leap(y: int) -> bool {
    y % 4 == 0 && (y % 100 != 0 || y % 400 == 0)
}

/// How many days a month has.
pub open spec fn month_days(y: int, m: int) -> int {
    if m == 2 {
        if is_leap(y) {
            29
        } else {
            28
        }
    } else if m == 4 || m == 6 || m == 9 || m == 11 {
        30
    } else {
        31
    }
}

pub open spec fn is_date(y: int, m: int, d: int) -> bool {
    1 <= m <= 12 && 1 <= d <= month_days(y, m)
}

/// How many leap years there are from year 1 to year `y`.
pub open spec fn leap_years(y: int) -> int {
    y / 4 - y / 100 + y / 400
}

/// How many days of a year come before a month.
pub open spec fn days_before(y: int, m: int) -> int
    decreases m,
{
    if m <= 1 {
        0
    } else {
        days_before(y, m - 1) + month_days(y, m - 1)
    }
}

/// The number of days from 1 January 1970 to a date.
pub open spec fn day_number(y: int, m: int, d: int) -> int {
    365 * (y - 1970) + leap_years(y - 1) - leap_years(1969) + days_before(y, m) + d - 1
}

/// The date that is `days` after 1 January 1970. Eras are 400 years and begin in March, so that
/// the leap day is the last of its year.
pub open spec fn civil(days: int) -> (int, int, int) {
    let z = days + 719_468;
    let era = z / 146_097;
    let doe = z % 146_097;
    let century = if doe / 36_524 > 3 {
        3
    } else {
        doe / 36_524
    };
    let doc = doe - century * 36_524;
    let quad = doc / 1461;
    let doq = doc % 1461;
    let year = if doq / 365 > 3 {
        3
    } else {
        doq / 365
    };
    let doy = doq - year * 365;
    let mp = (5 * doy + 2) / 153;
    let day = doy - (153 * mp + 2) / 5 + 1;
    let month = if mp < 10 {
        mp + 3
    } else {
        mp - 9
    };
    let from_march = era * 400 + century * 100 + quad * 4 + year;
    (if month <= 2 {
        from_march + 1
    } else {
        from_march
    }, month, day)
}

proof fn lemma_leap_years(y: int)
    ensures
        leap_years(y) == leap_years(y - 1) + (if is_leap(y) {
            1int
        } else {
            0int
        }),
{
}

proof fn lemma_days_before(y: int)
    ensures
        ({
            let l = if is_leap(y) {
                1int
            } else {
                0int
            };
            &&& days_before(y, 1) == 0
            &&& days_before(y, 2) == 31
            &&& days_before(y, 3) == 59 + l
            &&& days_before(y, 4) == 90 + l
            &&& days_before(y, 5) == 120 + l
            &&& days_before(y, 6) == 151 + l
            &&& days_before(y, 7) == 181 + l
            &&& days_before(y, 8) == 212 + l
            &&& days_before(y, 9) == 243 + l
            &&& days_before(y, 10) == 273 + l
            &&& days_before(y, 11) == 304 + l
            &&& days_before(y, 12) == 334 + l
        }),
{
    reveal_with_fuel(days_before, 13);
}

/// In an era, the days before a year that begins in March.
spec fn march_days(era: int, yoe: int) -> int {
    era * 146_097 + 365 * yoe + yoe / 4 - yoe / 100
}

proof fn lemma_march(era: int, yoe: int, mp: int, day: int)
    requires
        0 <= yoe < 400,
        0 <= mp < 12,
    ensures
        ({
            let month = if mp < 10 {
                mp + 3
            } else {
                mp - 9
            };
            let y = era * 400 + yoe;
            let year = if month <= 2 {
                y + 1
            } else {
                y
            };
            day_number(year, month, day) == march_days(era, yoe) + (153 * mp + 2) / 5 + day - 1
                - 719_468
        }),
{
    let y = era * 400 + yoe;
    lemma_days_before(y);
    lemma_days_before(y + 1);
    lemma_leap_years(y);
    assert(leap_years(y) == 97 * era + yoe / 4 - yoe / 100);
}

proof fn lemma_year_of_era(doe: int)
    requires
        0 <= doe < 146_097,
    ensures
        ({
            let century = if doe / 36_524 > 3 {
                3
            } else {
                doe / 36_524
            };
            let doc = doe - century * 36_524;
            let quad = doc / 1461;
            let doq = doc % 1461;
            let year = if doq / 365 > 3 {
                3
            } else {
                doq / 365
            };
            let doy = doq - year * 365;
            let yoe = century * 100 + quad * 4 + year;
            &&& 0 <= yoe < 400
            &&& 0 <= doy <= 365
            &&& doy == 365 ==> is_leap(yoe + 1)
            &&& doe == march_days(0, yoe) + doy
        }),
{
}

proof fn lemma_month(doy: int)
    requires
        0 <= doy <= 365,
    ensures
        ({
            let mp = (5 * doy + 2) / 153;
            let day = doy - (153 * mp + 2) / 5 + 1;
            &&& 0 <= mp < 12
            &&& 1 <= day
            &&& mp == 0 || mp == 2 || mp == 4 || mp == 5 || mp == 7 || mp == 9 || mp == 10 ==> day <= 31
            &&& mp == 1 || mp == 3 || mp == 6 || mp == 8 ==> day <= 30
            &&& mp == 11 ==> day <= 29 && (day == 29 ==> doy == 365)
        }),
{
}

proof fn lemma_leap_in_era(era: int, y: int)
    ensures
        is_leap(era * 400 + y) == is_leap(y),
{
}

/// The date of a day of a year that begins in March.
spec fn march_date(from_march: int, doy: int) -> (int, int, int) {
    let mp = (5 * doy + 2) / 153;
    let month = if mp < 10 {
        mp + 3
    } else {
        mp - 9
    };
    (if month <= 2 {
        from_march + 1
    } else {
        from_march
    }, month, doy - (153 * mp + 2) / 5 + 1)
}

proof fn lemma_march_date(era: int, yoe: int, doy: int)
    requires
        0 <= yoe < 400,
        0 <= doy <= 365,
        doy == 365 ==> is_leap(yoe + 1),
    ensures
        ({
            let (y, m, d) = march_date(era * 400 + yoe, doy);
            is_date(y, m, d) && day_number(y, m, d) == march_days(era, yoe) + doy - 719_468
        }),
{
    let mp = (5 * doy + 2) / 153;
    let day = doy - (153 * mp + 2) / 5 + 1;
    lemma_month(doy);
    lemma_march(era, yoe, mp, day);
    lemma_leap_in_era(era, yoe + 1);
}

/// Every day has one date: the date found for a day is one of the calendar, and it is that many
/// days after 1 January 1970.
pub proof fn law_date_of_a_day(days: int)
    ensures
        ({
            let (y, m, d) = civil(days);
            is_date(y, m, d) && day_number(y, m, d) == days
        }),
{
    let z = days + 719_468;
    let era = z / 146_097;
    let doe = z % 146_097;
    lemma_year_of_era(doe);
    let century = if doe / 36_524 > 3 {
        3
    } else {
        doe / 36_524
    };
    let doc = doe - century * 36_524;
    let quad = doc / 1461;
    let doq = doc % 1461;
    let year = if doq / 365 > 3 {
        3
    } else {
        doq / 365
    };
    let doy = doq - year * 365;
    let yoe = century * 100 + quad * 4 + year;
    lemma_march_date(era, yoe, doy);
    assert(civil(days) == march_date(era * 400 + yoe, doy));
}

/// Two dates of one day are one date.
pub proof fn law_a_day_has_one_date(y1: int, m1: int, d1: int, y2: int, m2: int, d2: int)
    requires
        is_date(y1, m1, d1),
        is_date(y2, m2, d2),
        day_number(y1, m1, d1) == day_number(y2, m2, d2),
    ensures
        y1 == y2 && m1 == m2 && d1 == d2,
{
    lemma_days_before(y1);
    lemma_days_before(y2);
    lemma_within_year(y1, m1, d1);
    lemma_within_year(y2, m2, d2);
    if y1 < y2 {
        lemma_years_apart(y1, y2);
    } else if y2 < y1 {
        lemma_years_apart(y2, y1);
    }
}

spec fn year_start(y: int) -> int {
    365 * (y - 1970) + leap_years(y - 1) - leap_years(1969)
}

proof fn lemma_within_year(y: int, m: int, d: int)
    requires
        is_date(y, m, d),
    ensures
        year_start(y) <= day_number(y, m, d) < year_start(y + 1),
{
    lemma_days_before(y);
    lemma_leap_years(y);
}

proof fn lemma_years_apart(a: int, b: int)
    requires
        a < b,
    ensures
        year_start(a + 1) <= year_start(b),
    decreases b - a,
{
    if a + 1 < b {
        lemma_years_apart(a, b - 1);
        lemma_leap_years(b - 1);
    }
}

// --- The stamp ---

/// A year in at least four digits.
pub open spec fn year_text(y: int) -> Seq<char> {
    if y < 10_000 {
        number::digits(y as nat, 4)
    } else {
        number::decimal(y as nat)
    }
}

pub open spec fn two_digits(n: int) -> Seq<char> {
    number::digits(n as nat, 2)
}

/// A moment, in seconds from the beginning of 1970, as date and time in UTC.
pub open spec fn stamp(secs: int) -> Seq<char> {
    let (y, m, d) = civil(secs / 86_400);
    let tod = secs % 86_400;
    year_text(y) + "-"@ + two_digits(m) + "-"@ + two_digits(d) + "T"@ + two_digits(tod / 3600) + ":"@
        + two_digits(tod / 60 % 60) + ":"@ + two_digits(tod % 60) + "Z"@
}

fn civil_of(days: u64) -> (r: (u64, u64, u64))
    requires
        days <= 0x1_0000_0000_0000,
    ensures
        (r.0 as int, r.1 as int, r.2 as int) == civil(days as int),
        1 <= r.1 <= 12,
        1 <= r.2 <= 31,
{
    let z: u64 = days + 719_468;
    let era: u64 = z / 146_097;
    let doe: u64 = z % 146_097;
    let century: u64 = if doe / 36_524 > 3 {
        3
    } else {
        doe / 36_524
    };
    let doc: u64 = doe - century * 36_524;
    let quad: u64 = doc / 1461;
    let doq: u64 = doc % 1461;
    let year: u64 = if doq / 365 > 3 {
        3
    } else {
        doq / 365
    };
    let doy: u64 = doq - year * 365;
    let mp: u64 = (5 * doy + 2) / 153;
    proof {
        lemma_year_of_era(doe as int);
        lemma_month(doy as int);
    }
    let day: u64 = doy + 1 - (153 * mp + 2) / 5;
    let month: u64 = if mp < 10 {
        mp + 3
    } else {
        mp - 9
    };
    let from_march: u64 = era * 400 + century * 100 + quad * 4 + year;
    let y: u64 = if month <= 2 {
        from_march + 1
    } else {
        from_march
    };
    (y, month, day)
}

/// A moment, in seconds from the beginning of 1970, as date and time in UTC.
pub fn utc_stamp(secs: u64) -> (r: String)
    ensures
        r@ == stamp(secs as int),
{
    let (y, m, d) = civil_of(secs / 86_400);
    let tod: u64 = secs % 86_400;
    let mut out = String::new();
    if y < 10_000 {
        push_digits(&mut out, y as u128, 4);
    } else {
        push_decimal(&mut out, y as u128);
    }
    out.append("-");
    push_digits(&mut out, m as u128, 2);
    out.append("-");
    push_digits(&mut out, d as u128, 2);
    out.append("T");
    push_digits(&mut out, (tod / 3600) as u128, 2);
    out.append(":");
    push_digits(&mut out, (tod / 60 % 60) as u128, 2);
    out.append(":");
    push_digits(&mut out, (tod % 60) as u128, 2);
    out.append("Z");
    proof {
        assert(out@ =~= stamp(secs as int));
    }
    out
}

/// The stamp of a moment that lies so many whole seconds behind the beginning of 1970; one before
/// that, which has no such number, counts as the beginning.
pub fn stamp_since(secs: Option<u64>) -> (r: String)
    ensures
        r@ == stamp(match secs {
            Some(n) => n as int,
            None => 0,
        }),
{
    match secs {
        Some(n) => utc_stamp(n),
        None => utc_stamp(0),
    }
}

// --- The order of stamps ---

/// The beginning of the year 10000, in seconds from that of 1970.
pub const YEAR_10000: u64 = 253_402_300_800;

/// A date before another, or a time of day.
pub open spec fn earlier(a: (int, int, int), b: (int, int, int)) -> bool {
    a.0 < b.0 || (a.0 == b.0 && (a.1 < b.1 || (a.1 == b.1 && a.2 < b.2)))
}

/// A later day has a later date.
proof fn lemma_later_date(a: int, b: int)
    requires
        a < b,
    ensures
        earlier(civil(a), civil(b)),
{
    let (y1, m1, d1) = civil(a);
    let (y2, m2, d2) = civil(b);
    law_date_of_a_day(a);
    law_date_of_a_day(b);
    lemma_within_year(y1, m1, d1);
    lemma_within_year(y2, m2, d2);
    lemma_days_before(y1);
    if y2 < y1 {
        lemma_years_apart(y2, y1);
    }
}

/// A day before the year 10000 has a year of at most four digits.
proof fn lemma_four_digits(days: int)
    requires
        0 <= days < 2_932_897,
    ensures
        0 <= civil(days).0 < 10_000,
{
    let (y, m, d) = civil(days);
    law_date_of_a_day(days);
    lemma_within_year(y, m, d);
    if y >= 10_000 {
        if y > 10_000 {
            lemma_years_apart(9_999, y);
        }
        assert(year_start(10_000) == 2_932_897);
    }
    if y < 1970 {
        lemma_years_apart(y, 1970);
        assert(year_start(1970) == 0);
    }
}

/// What the digits of a number cannot hold any more.
spec fn too_long(places: nat) -> int
    decreases places,
{
    if places == 0 {
        1
    } else {
        10 * too_long((places - 1) as nat)
    }
}

proof fn lemma_digits_len(n: nat, places: nat)
    ensures
        number::digits(n, places).len() == places,
        forall|i: int|
            0 <= i < places ==> '0' <= #[trigger] number::digits(n, places)[i] <= '9',
    decreases places,
{
    if places > 0 {
        lemma_digits_len(n / 10, (places - 1) as nat);
    }
}

/// As many digits of a smaller number sort before those of a larger.
proof fn lemma_digits_order(n: nat, m: nat, places: nat)
    requires
        n < m < too_long(places),
    ensures
        text::sorts_before(number::digits(n, places), number::digits(m, places)),
    decreases places,
{
    let a = number::digits(n, places);
    let b = number::digits(m, places);
    let less = (places - 1) as nat;
    let head_a = number::digits(n / 10, less);
    let head_b = number::digits(m / 10, less);
    lemma_digits_len(n / 10, less);
    lemma_digits_len(m / 10, less);
    if n / 10 < m / 10 {
        lemma_digits_order(n / 10, m / 10, less);
        let k = choose|k: int| text::parts_at(head_a, head_b, k);
        assert forall|j: int| 0 <= j < k implies #[trigger] a[j] == b[j] by {
            assert(head_a[j] == head_b[j]);
        }
        assert(text::parts_at(a, b, k));
    } else {
        assert(text::parts_at(a, b, less as int));
    }
}

proof fn lemma_two_digits(n: int, m: int)
    requires
        0 <= n < m < 100,
    ensures
        text::sorts_before(two_digits(n), two_digits(m)),
{
    reveal_with_fuel(too_long, 3);
    lemma_digits_order(n as nat, m as nat, 2);
}

/// The front of a stamp.
spec fn date_text(date: (int, int, int)) -> Seq<char> {
    year_text(date.0) + "-"@ + two_digits(date.1) + "-"@ + two_digits(date.2)
}

/// The back of a stamp.
spec fn time_text(time: (int, int, int)) -> Seq<char> {
    "T"@ + two_digits(time.0) + ":"@ + two_digits(time.1) + ":"@ + two_digits(time.2) + "Z"@
}

/// The hour, minute and second of a second of the day.
spec fn clock(tod: int) -> (int, int, int) {
    (tod / 3600, tod / 60 % 60, tod % 60)
}

proof fn lemma_dates_in_order(a: (int, int, int), b: (int, int, int))
    requires
        earlier(a, b),
        0 <= a.0 < 10_000 && 0 <= b.0 < 10_000,
        0 <= a.1 < 100 && 0 <= b.1 < 100,
        0 <= a.2 < 100 && 0 <= b.2 < 100,
    ensures
        date_text(a).len() == date_text(b).len(),
        text::sorts_before(date_text(a), date_text(b)),
{
    let none = Seq::<char>::empty();
    let (m1, d1) = (two_digits(a.1), two_digits(a.2));
    let (m2, d2) = (two_digits(b.1), two_digits(b.2));
    lemma_digits_len(a.0 as nat, 4);
    lemma_digits_len(b.0 as nat, 4);
    lemma_digits_len(a.1 as nat, 2);
    lemma_digits_len(b.1 as nat, 2);
    lemma_digits_len(a.2 as nat, 2);
    lemma_digits_len(b.2 as nat, 2);
    if a.0 < b.0 {
        reveal_with_fuel(too_long, 5);
        lemma_digits_order(a.0 as nat, b.0 as nat, 4);
        let x = "-"@ + m1 + "-"@ + d1;
        let y = "-"@ + m2 + "-"@ + d2;
        text::lemma_piece_decides(none, year_text(a.0), year_text(b.0), x, y);
        assert(none + year_text(a.0) + x =~= date_text(a));
        assert(none + year_text(b.0) + y =~= date_text(b));
    } else if a.1 < b.1 {
        lemma_two_digits(a.1, b.1);
        let head = year_text(a.0) + "-"@;
        text::lemma_piece_decides(head, m1, m2, "-"@ + d1, "-"@ + d2);
        assert(head + m1 + ("-"@ + d1) =~= date_text(a));
        assert(head + m2 + ("-"@ + d2) =~= date_text(b));
    } else {
        lemma_two_digits(a.2, b.2);
        let head = year_text(a.0) + "-"@ + m1 + "-"@;
        text::lemma_piece_decides(head, d1, d2, none, none);
        assert(head + d1 + none =~= date_text(a));
        assert(head + d2 + none =~= date_text(b));
    }
}

proof fn lemma_times_in_order(a: (int, int, int), b: (int, int, int))
    requires
        earlier(a, b),
        0 <= a.0 < 100 && 0 <= b.0 < 100,
        0 <= a.1 < 100 && 0 <= b.1 < 100,
        0 <= a.2 < 100 && 0 <= b.2 < 100,
    ensures
        time_text(a).len() == time_text(b).len(),
        text::sorts_before(time_text(a), time_text(b)),
{
    let (h1, n1, s1) = (two_digits(a.0), two_digits(a.1), two_digits(a.2));
    let (h2, n2, s2) = (two_digits(b.0), two_digits(b.1), two_digits(b.2));
    lemma_digits_len(a.0 as nat, 2);
    lemma_digits_len(b.0 as nat, 2);
    lemma_digits_len(a.1 as nat, 2);
    lemma_digits_len(b.1 as nat, 2);
    lemma_digits_len(a.2 as nat, 2);
    lemma_digits_len(b.2 as nat, 2);
    if a.0 < b.0 {
        lemma_two_digits(a.0, b.0);
        let x = ":"@ + n1 + ":"@ + s1 + "Z"@;
        let y = ":"@ + n2 + ":"@ + s2 + "Z"@;
        text::lemma_piece_decides("T"@, h1, h2, x, y);
        assert("T"@ + h1 + x =~= time_text(a));
        assert("T"@ + h2 + y =~= time_text(b));
    } else if a.1 < b.1 {
        lemma_two_digits(a.1, b.1);
        let head = "T"@ + h1 + ":"@;
        let x = ":"@ + s1 + "Z"@;
        let y = ":"@ + s2 + "Z"@;
        text::lemma_piece_decides(head, n1, n2, x, y);
        assert(head + n1 + x =~= time_text(a));
        assert(head + n2 + y =~= time_text(b));
    } else {
        lemma_two_digits(a.2, b.2);
        let head = "T"@ + h1 + ":"@ + n1 + ":"@;
        text::lemma_piece_decides(head, s1, s2, "Z"@, "Z"@);
    }
}

proof fn lemma_clock(a: int, b: int)
    requires
        0 <= a < b < 86_400,
    ensures
        earlier(clock(a), clock(b)),
        0 <= clock(a).0 < 24 && 0 <= clock(b).0 < 24,
        0 <= clock(a).1 < 60 && 0 <= clock(b).1 < 60,
        0 <= clock(a).2 < 60 && 0 <= clock(b).2 < 60,
{
}

/// A stamp is a date and a time of day.
proof fn lemma_stamp_halves(secs: int)
    ensures
        stamp(secs) == date_text(civil(secs / 86_400)) + time_text(clock(secs % 86_400)),
{
    let date = date_text(civil(secs / 86_400));
    assert(stamp(secs) =~= date + time_text(clock(secs % 86_400)));
}

/// The stamp of an earlier moment sorts before that of a later one.
proof fn lemma_stamps_in_order(a: int, b: int)
    requires
        0 <= a < b < YEAR_10000,
    ensures
        text::sorts_before(stamp(a), stamp(b)),
{
    let none = Seq::<char>::empty();
    let (p, q) = (a / 86_400, b / 86_400);
    lemma_stamp_halves(a);
    lemma_stamp_halves(b);
    if p < q {
        lemma_four_digits(p);
        lemma_four_digits(q);
        law_date_of_a_day(p);
        law_date_of_a_day(q);
        lemma_later_date(p, q);
        lemma_dates_in_order(civil(p), civil(q));
        let (x, y) = (date_text(civil(p)), date_text(civil(q)));
        text::lemma_piece_decides(none, x, y, time_text(clock(a % 86_400)), time_text(clock(b % 86_400)));
        assert(none + x =~= x);
        assert(none + y =~= y);
    } else {
        lemma_clock(a % 86_400, b % 86_400);
        lemma_times_in_order(clock(a % 86_400), clock(b % 86_400));
        let (x, y) = (time_text(clock(a % 86_400)), time_text(clock(b % 86_400)));
        text::lemma_piece_decides(date_text(civil(p)), x, y, none, none);
        assert(date_text(civil(p)) + x + none =~= stamp(a));
        assert(date_text(civil(p)) + y + none =~= stamp(b));
    }
}

/// A text of the form YYYY-MM-DDTHH:MM:SSZ.
pub open spec fn stamp_form(s: Seq<char>) -> bool {
    &&& s.len() == 20
    &&& s[4] == '-' && s[7] == '-' && s[10] == 'T' && s[13] == ':' && s[16] == ':' && s[19] == 'Z'
    &&& forall|i: int|
        0 <= i < 20 && i != 4 && i != 7 && i != 10 && i != 13 && i != 16 && i != 19 ==> '0'
            <= #[trigger] s[i] <= '9'
}

/// Before the year 10000 every stamp has the form YYYY-MM-DDTHH:MM:SSZ.
pub proof fn law_stamps_have_one_form(secs: int)
    requires
        0 <= secs < YEAR_10000,
    ensures
        stamp_form(stamp(secs)),
{
    let (y, m, d) = civil(secs / 86_400);
    let tod = secs % 86_400;
    lemma_four_digits(secs / 86_400);
    lemma_digits_len(y as nat, 4);
    lemma_digits_len(m as nat, 2);
    lemma_digits_len(d as nat, 2);
    lemma_digits_len((tod / 3600) as nat, 2);
    lemma_digits_len((tod / 60 % 60) as nat, 2);
    lemma_digits_len((tod % 60) as nat, 2);
    reveal_strlit("-");
    reveal_strlit("T");
    reveal_strlit(":");
    reveal_strlit("Z");
}

/// Before the year 10000 stamps sort as their moments do, and two are equal exactly where they
/// name one and the same second.
pub proof fn law_stamps_sort_by_time(a: int, b: int)
    requires
        0 <= a < YEAR_10000,
        0 <= b < YEAR_10000,
    ensures
        text::sorts_before(stamp(a), stamp(b)) <==> a < b,
        stamp(a) == stamp(b) <==> a == b,
{
    if a < b {
        lemma_stamps_in_order(a, b);
        text::lemma_one_way(stamp(a), stamp(b));
    } else if b < a {
        lemma_stamps_in_order(b, a);
        text::lemma_one_way(stamp(b), stamp(a));
    } else if text::sorts_before(stamp(a), stamp(a)) {
        text::lemma_one_way(stamp(a), stamp(a));
    }
}

} // verus!
