//! RFC 1123 HTTP dates (`Sun, 06 Nov 1994 08:49:37 GMT`) as Unix timestamps,
//! and the proleptic Gregorian day count they rest on.
use vstd::prelude::*;
use crate::number::{parse_i64, parse_u32, parse_i64_range, parse_u32_range};
use crate::text::{
    CharClass, split, words, non_empty, split_ranges, to_chars, range_eq_str,
};

verus! {

/// The English three-letter month abbreviations, in calendar order.
pub open spec fn month_names() -> Seq<Seq<char>> {
    seq![
        "Jan"@, "Feb"@, "Mar"@, "Apr"@, "May"@, "Jun"@, "Jul"@, "Aug"@, "Sep"@, "Oct"@, "Nov"@,
        "Dec"@,
    ]
}

/// The fields of an HTTP date, as the parser reads them.
#[derive(Clone, Copy)]
pub struct DateFields {
    pub day: u32,
    pub month: u32,
    pub year: i64,
    pub hour: i64,
    pub minute: i64,
    pub second: i64,
}

/// The number (1 to 12) of an English three-letter month abbreviation.
pub open spec fn month_number(s: Seq<char>) -> Option<u32> {
    if s == "Jan"@ {
        Some(1u32)
    } else if s == "Feb"@ {
        Some(2u32)
    } else if s == "Mar"@ {
        Some(3u32)
    } else if s == "Apr"@ {
        Some(4u32)
    } else if s == "May"@ {
        Some(5u32)
    } else if s == "Jun"@ {
        Some(6u32)
    } else if s == "Jul"@ {
        Some(7u32)
    } else if s == "Aug"@ {
        Some(8u32)
    } else if s == "Sep"@ {
        Some(9u32)
    } else if s == "Oct"@ {
        Some(10u32)
    } else if s == "Nov"@ {
        Some(11u32)
    } else if s == "Dec"@ {
        Some(12u32)
    } else {
        None
    }
}

/// The twelve abbreviations read as the months 1 to 12 in calendar order, and
/// nothing else reads as a month: the name of month `n` is the `n`-th
/// abbreviation of the calendar.
pub proof fn lemma_month_names(s: Seq<char>)
    ensures
        forall|i: int| 0 <= i < 12 ==> month_number(#[trigger] month_names()[i]) == Some((i + 1) as u32),
        month_number(s) is Some ==> 1 <= month_number(s)->0 <= 12 && month_names()[month_number(s)->0 - 1] == s,
{
    reveal_strlit("Jan");
    reveal_strlit("Feb");
    reveal_strlit("Mar");
    reveal_strlit("Apr");
    reveal_strlit("May");
    reveal_strlit("Jun");
    reveal_strlit("Jul");
    reveal_strlit("Aug");
    reveal_strlit("Sep");
    reveal_strlit("Oct");
    reveal_strlit("Nov");
    reveal_strlit("Dec");
    let names = month_names();
    assert("Jan"@[0] == 'J' && "Jan"@[1] == 'a' && "Jan"@[2] == 'n');
    assert("Feb"@[0] == 'F' && "Feb"@[1] == 'e' && "Feb"@[2] == 'b');
    assert("Mar"@[0] == 'M' && "Mar"@[1] == 'a' && "Mar"@[2] == 'r');
    assert("Apr"@[0] == 'A' && "Apr"@[1] == 'p' && "Apr"@[2] == 'r');
    assert("May"@[0] == 'M' && "May"@[1] == 'a' && "May"@[2] == 'y');
    assert("Jun"@[0] == 'J' && "Jun"@[1] == 'u' && "Jun"@[2] == 'n');
    assert("Jul"@[0] == 'J' && "Jul"@[1] == 'u' && "Jul"@[2] == 'l');
    assert("Aug"@[0] == 'A' && "Aug"@[1] == 'u' && "Aug"@[2] == 'g');
    assert("Sep"@[0] == 'S' && "Sep"@[1] == 'e' && "Sep"@[2] == 'p');
    assert("Oct"@[0] == 'O' && "Oct"@[1] == 'c' && "Oct"@[2] == 't');
    assert("Nov"@[0] == 'N' && "Nov"@[1] == 'o' && "Nov"@[2] == 'v');
    assert("Dec"@[0] == 'D' && "Dec"@[1] == 'e' && "Dec"@[2] == 'c');
    assert(month_number(names[0]) == Some(1u32));
    assert(month_number(names[1]) == Some(2u32));
    assert(month_number(names[2]) == Some(3u32));
    assert(month_number(names[3]) == Some(4u32));
    assert(month_number(names[4]) == Some(5u32));
    assert(month_number(names[5]) == Some(6u32));
    assert(month_number(names[6]) == Some(7u32));
    assert(month_number(names[7]) == Some(8u32));
    assert(month_number(names[8]) == Some(9u32));
    assert(month_number(names[9]) == Some(10u32));
    assert(month_number(names[10]) == Some(11u32));
    assert(month_number(names[11]) == Some(12u32));
}

/// The fields of `s` read as `<weekday> <day> <month> <year> <hh>:<mm>:<ss> GMT`:
/// exactly six whitespace-separated words, the last `GMT`; the day a `u32`,
/// the month an abbreviation, year and time parts `i64`s. The weekday is not read.
pub open spec fn date_fields(s: Seq<char>) -> Option<DateFields> {
    let f = words(s);
    let t = split(f[4], CharClass::Is(':'));
    if f.len() == 6 && f[5] == "GMT"@ && parse_u32(f[1]) is Some && month_number(f[2]) is Some
        && parse_i64(f[3]) is Some && t.len() == 3 && parse_i64(t[0]) is Some && parse_i64(
        t[1],
    ) is Some && parse_i64(t[2]) is Some {
        Some(
            DateFields {
                day: parse_u32(f[1])->0,
                month: month_number(f[2])->0,
                year: parse_i64(f[3])->0,
                hour: parse_i64(t[0])->0,
                minute: parse_i64(t[1])->0,
                second: parse_i64(t[2])->0,
            },
        )
    } else {
        None
    }
}

/// Days from 1970-01-01 to the given civil date (year, month 1 to 12, day),
/// counted on eras of 400 years that begin on 1 March.
pub open spec fn civil_days(y: int, m: int, d: int) -> int {
    let y2 = if m <= 2 {
        y - 1
    } else {
        y
    };
    let era = y2 / 400;
    let yoe = y2 - era * 400;
    let mp = if m > 2 {
        m - 3
    } else {
        m + 9
    };
    let doy = (153 * mp + 2) / 5 + d - 1;
    let doe = yoe * 365 + yoe / 4 - yoe / 100 + doy;
    era * 146097 + doe - 719468
}

pub open spec fn fits_i64(x: int) -> bool {
    i64::MIN <= x <= i64::MAX
}

/// Every intermediate value of the day count fits in an `i64`.
pub open spec fn days_fit(y: int, m: int, d: int) -> bool {
    let y2 = if m <= 2 {
        y - 1
    } else {
        y
    };
    let era = y2 / 400;
    let yoe = y2 - era * 400;
    let mp = if m > 2 {
        m - 3
    } else {
        m + 9
    };
    let doy = (153 * mp + 2) / 5 + d - 1;
    let doe = yoe * 365 + yoe / 4 - yoe / 100 + doy;
    &&& fits_i64(y2)
    &&& (y2 < 0 ==> fits_i64(y2 - 399))
    &&& fits_i64(era * 146097)
    &&& fits_i64(era * 146097 + doe)
    &&& fits_i64(era * 146097 + doe - 719468)
}

/// Seconds since the Unix epoch of the date with the given fields.
pub open spec fn timestamp(f: DateFields) -> int {
    civil_days(f.year as int, f.month as int, f.day as int) * 86400 + f.hour * 3600 + f.minute
        * 60 + f.second
}

/// Every intermediate value of the timestamp fits in an `i64`.
pub open spec fn timestamp_fits(f: DateFields) -> bool {
    let days = civil_days(f.year as int, f.month as int, f.day as int);
    &&& days_fit(f.year as int, f.month as int, f.day as int)
    &&& fits_i64(days * 86400)
    &&& fits_i64(f.hour * 3600)
    &&& fits_i64(days * 86400 + f.hour * 3600)
    &&& fits_i64(f.minute * 60)
    &&& fits_i64(days * 86400 + f.hour * 3600 + f.minute * 60)
    &&& fits_i64(days * 86400 + f.hour * 3600 + f.minute * 60 + f.second)
}

/// The timestamp that an HTTP date denotes, if it is one.
pub open spec fn http_date(s: Seq<char>) -> Option<int> {
    match date_fields(s) {
        Some(f) => Some(timestamp(f)),
        None => None,
    }
}

/// Converting `s` to a timestamp overflows no `i64`.
pub open spec fn http_date_fits(s: Seq<char>) -> bool {
    match date_fields(s) {
        Some(f) => timestamp_fits(f),
        None => true,
    }
}

/// Leap years of the proleptic Gregorian calendar.
pub open spec fn is_leap_year(y: int) -> bool {
    y % 4 == 0 && (y % 100 != 0 || y % 400 == 0)
}

/// The number of days of month `m` (1 to 12) of year `y`.
pub open spec fn days_in_month(y: int, m: int) -> int {
    if m == 2 {
        if is_leap_year(y) {
            29
        } else {
            28
        }
    } else if m == 4 || m == 6 || m == 9 || m == 11 {
        30
    } else {
        31
    }
}

pub open spec fn valid_date(y: int, m: int, d: int) -> bool {
    1 <= m <= 12 && 1 <= d <= days_in_month(y, m)
}

/// The calendar date that follows (y, m, d).
pub open spec fn next_date(y: int, m: int, d: int) -> (int, int, int) {
    if d < days_in_month(y, m) {
        (y, m, d + 1)
    } else if m < 12 {
        (y, m + 1, 1)
    } else {
        (y + 1, 1, 1)
    }
}

/// The day count starts at the Unix epoch: 1970-01-01 is day 0.
pub proof fn lemma_civil_days_epoch()
    ensures
        civil_days(1970, 1, 1) == 0,
{
}

/// The day count is the proleptic Gregorian calendar: the day after any valid
/// date, leap days and century rules included, is counted one more.
pub proof fn lemma_civil_days_next_date(y: int, m: int, d: int)
    requires
        valid_date(y, m, d),
    ensures
        civil_days(next_date(y, m, d).0, next_date(y, m, d).1, next_date(y, m, d).2)
            == civil_days(y, m, d) + 1,
{
    let ml = days_in_month(y, m);
    if d < ml {
    } else if m != 2 {
        if m == 1 {
        } else if m == 3 {
        } else if m == 4 {
        } else if m == 5 {
        } else if m == 6 {
        } else if m == 7 {
        } else if m == 8 {
        } else if m == 9 {
        } else if m == 10 {
        } else if m == 11 {
        } else {
            assert(m == 12);
        }
    } else {
        // 28 or 29 February of y to 1 March of y: a new year of the era
        lemma_year_step(y - 1);
    }
}

/// From the last day of February (of year a + 1) to 1 March: the day count
/// of the March-based year `a` ends where the next one begins.
#[verifier::spinoff_prover]
proof fn lemma_year_step(a: int)
    ensures
        ({
            let ml = if is_leap_year(a + 1) {
                29int
            } else {
                28int
            };
            let era = a / 400;
            let yoe = a - era * 400;
            let era2 = (a + 1) / 400;
            let yoe2 = (a + 1) - era2 * 400;
            era2 * 146097 + (yoe2 * 365 + yoe2 / 4 - yoe2 / 100) == era * 146097 + (yoe * 365
                + yoe / 4 - yoe / 100 + 336 + ml) + 1
        }),
{
    let q = a / 400;
    let t = a - q * 400;
    lemma_div_400(a);
    if t == 399 {
        lemma_shift_div(q, 399, 400);
        assert((a + 1) / 400 == q + 1);
        assert(is_leap_year(a + 1)) by {
            lemma_shift_mod(q * 100, 0, 4);
            lemma_shift_mod(q * 4, 0, 100);
            lemma_shift_mod(q, 0, 400);
        }
    } else {
        lemma_shift_div(q, t + 1, 400);
        assert((a + 1) / 400 == q);
        lemma_shift_mod(q * 100, t + 1, 4);
        lemma_shift_mod(q * 4, t + 1, 100);
        lemma_shift_mod(q, t + 1, 400);
        assert(a + 1 == (q * 100) * 4 + (t + 1));
        assert(a + 1 == (q * 4) * 100 + (t + 1));
        lemma_small_step(t);
    }
}

proof fn lemma_div_400(a: int)
    ensures
        0 <= a - (a / 400) * 400 < 400,
{
}

/// (k * n + r) / n == k + r / n and (k * n + r) % n == r % n, for 0 <= r.
proof fn lemma_shift_div(k: int, r: int, n: int)
    requires
        n > 0,
        0 <= r,
    ensures
        (k * n + r) / n == k + r / n,
{
    vstd::arithmetic::div_mod::lemma_fundamental_div_mod(r, n);
    assert(k * n + r == n * (k + r / n) + r % n) by (nonlinear_arith)
        requires
            r == n * (r / n) + r % n,
    ;
    vstd::arithmetic::div_mod::lemma_div_multiples_vanish_fancy(k + r / n, r % n, n);
}

proof fn lemma_shift_mod(k: int, r: int, n: int)
    requires
        n > 0,
    ensures
        (k * n + r) % n == r % n,
{
    vstd::arithmetic::div_mod::lemma_mod_multiples_vanish(k, r, n);
    assert(k * n == n * k) by (nonlinear_arith);
}

/// One March-based year of an era, not its last, to the next.
proof fn lemma_small_step(t: int)
    requires
        0 <= t < 399,
    ensures
        (t + 1) / 4 - t / 4 == (if (t + 1) % 4 == 0 {
            1int
        } else {
            0int
        }),
        (t + 1) / 100 - t / 100 == (if (t + 1) % 100 == 0 {
            1int
        } else {
            0int
        }),
        (t + 1) % 400 == t + 1,
{
}

/// Days of year `y` before the first of month `m` (1 to 12).
pub open spec fn days_before_month(y: int, m: int) -> int {
    let l: int = if is_leap_year(y) {
        1
    } else {
        0
    };
    if m == 1 {
        0
    } else if m == 2 {
        31
    } else if m == 3 {
        59 + l
    } else if m == 4 {
        90 + l
    } else if m == 5 {
        120 + l
    } else if m == 6 {
        151 + l
    } else if m == 7 {
        181 + l
    } else if m == 8 {
        212 + l
    } else if m == 9 {
        243 + l
    } else if m == 10 {
        273 + l
    } else if m == 11 {
        304 + l
    } else {
        334 + l
    }
}

pub open spec fn days_in_year(y: int) -> int {
    if is_leap_year(y) {
        366
    } else {
        365
    }
}

proof fn lemma_day_of_year(y: int, m: int, d: int)
    requires
        valid_date(y, m, d),
    ensures
        civil_days(y, m, d) == civil_days(y, 1, 1) + days_before_month(y, m) + d - 1,
        0 <= days_before_month(y, m) + d - 1 < days_in_year(y),
{
    if m >= 3 {
        let ml = days_in_month(y, 2);
        lemma_civil_days_next_date(y, 2, ml);
        assert(civil_days(y, 3, 1) == civil_days(y, 1, 1) + 59 + (if is_leap_year(y) { 1int } else { 0int }));
        if m == 3 {
        } else if m == 4 {
        } else if m == 5 {
        } else if m == 6 {
        } else if m == 7 {
        } else if m == 8 {
        } else if m == 9 {
        } else if m == 10 {
        } else if m == 11 {
        } else {
        }
    }
}

proof fn lemma_year_length(y: int)
    ensures
        civil_days(y + 1, 1, 1) == civil_days(y, 1, 1) + days_in_year(y),
{
    lemma_civil_days_next_date(y, 12, 31);
    lemma_day_of_year(y, 12, 31);
}

proof fn lemma_years_increase(y1: int, y2: int)
    requires
        y1 < y2,
    ensures
        civil_days(y1, 1, 1) + days_in_year(y1) <= civil_days(y2, 1, 1),
    decreases y2 - y1,
{
    lemma_year_length(y1);
    if y1 + 1 < y2 {
        lemma_years_increase(y1 + 1, y2);
        lemma_year_length(y1 + 1);
    }
}

/// (y1, m1, d1) comes before (y2, m2, d2) in the calendar.
pub open spec fn date_before(y1: int, m1: int, d1: int, y2: int, m2: int, d2: int) -> bool {
    y1 < y2 || (y1 == y2 && (m1 < m2 || (m1 == m2 && d1 < d2)))
}

/// The day count orders valid dates as the calendar does, and tells them apart.
pub proof fn lemma_civil_days_order(y1: int, m1: int, d1: int, y2: int, m2: int, d2: int)
    requires
        valid_date(y1, m1, d1),
        valid_date(y2, m2, d2),
    ensures
        civil_days(y1, m1, d1) < civil_days(y2, m2, d2) <==> date_before(y1, m1, d1, y2, m2, d2),
        civil_days(y1, m1, d1) == civil_days(y2, m2, d2) <==> (y1 == y2 && m1 == m2 && d1 == d2),
{
    lemma_day_of_year(y1, m1, d1);
    lemma_day_of_year(y2, m2, d2);
    if y1 < y2 {
        lemma_years_increase(y1, y2);
    } else if y2 < y1 {
        lemma_years_increase(y2, y1);
    } else {
        assert(m1 < m2 ==> days_before_month(y1, m1) + days_in_month(y1, m1) <= days_before_month(y1, m2));
        assert(m2 < m1 ==> days_before_month(y1, m2) + days_in_month(y1, m2) <= days_before_month(y1, m1));
    }
}

/// The fields name a real moment: a valid date, 0-23 h, 0-59 min, 0-59 s.
pub open spec fn valid_fields(f: DateFields) -> bool {
    &&& valid_date(f.year as int, f.month as int, f.day as int)
    &&& 0 <= f.hour < 24
    &&& 0 <= f.minute < 60
    &&& 0 <= f.second < 60
}

/// `f` comes before `g`: (year, month, day, hour, minute, second) compared
/// lexicographically.
pub open spec fn fields_before(f: DateFields, g: DateFields) -> bool {
    ||| date_before(f.year as int, f.month as int, f.day as int, g.year as int, g.month as int, g.day as int)
    ||| (f.year == g.year && f.month == g.month && f.day == g.day && (f.hour < g.hour || (f.hour
        == g.hour && (f.minute < g.minute || (f.minute == g.minute && f.second < g.second)))))
}

/// Timestamps of valid fields order as the fields do, and equal timestamps
/// mean equal fields.
pub proof fn lemma_timestamp_order(f: DateFields, g: DateFields)
    requires
        valid_fields(f),
        valid_fields(g),
    ensures
        timestamp(f) < timestamp(g) <==> fields_before(f, g),
        timestamp(f) == timestamp(g) <==> f == g,
{
    lemma_civil_days_order(f.year as int, f.month as int, f.day as int, g.year as int, g.month as int, g.day as int);
}

/// The fields of the second that follows `f`, carrying into the minute, the
/// hour and the next calendar date.
pub open spec fn next_second(f: DateFields) -> DateFields {
    if f.second < 59 {
        DateFields { second: (f.second + 1) as i64, ..f }
    } else if f.minute < 59 {
        DateFields { minute: (f.minute + 1) as i64, second: 0, ..f }
    } else if f.hour < 23 {
        DateFields { hour: (f.hour + 1) as i64, minute: 0, second: 0, ..f }
    } else {
        let (y, m, d) = next_date(f.year as int, f.month as int, f.day as int);
        DateFields { day: d as u32, month: m as u32, year: y as i64, hour: 0, minute: 0, second: 0 }
    }
}

/// Timestamps count seconds: the second after any real moment, across a
/// minute, an hour or midnight (month and year ends, leap days included),
/// has the timestamp one greater. With the epoch at 0 this fixes every
/// timestamp.
pub proof fn lemma_timestamp_next_second(f: DateFields)
    requires
        valid_fields(f),
        f.year < i64::MAX,
    ensures
        valid_fields(next_second(f)),
        timestamp(next_second(f)) == timestamp(f) + 1,
        timestamp(DateFields { day: 1, month: 1, year: 1970, hour: 0, minute: 0, second: 0 }) == 0,
{
    lemma_civil_days_epoch();
    if f.second == 59 && f.minute == 59 && f.hour == 23 {
        lemma_civil_days_next_date(f.year as int, f.month as int, f.day as int);
        let (y, m, d) = next_date(f.year as int, f.month as int, f.day as int);
        assert(1 <= m <= 12 && 1 <= d <= 31);
        assert(days_in_month(y, m) <= 31);
    }
}

/// Parsed HTTP dates naming real moments order as their fields do, and two
/// give the same timestamp only when they give the same fields.
pub proof fn lemma_http_date_order(s1: Seq<char>, s2: Seq<char>)
    requires
        date_fields(s1) is Some,
        date_fields(s2) is Some,
        valid_fields(date_fields(s1)->0),
        valid_fields(date_fields(s2)->0),
    ensures
        http_date(s1)->0 < http_date(s2)->0 <==> fields_before(date_fields(s1)->0, date_fields(s2)->0),
        http_date(s1)->0 == http_date(s2)->0 <==> date_fields(s1) == date_fields(s2),
{
    lemma_timestamp_order(date_fields(s1)->0, date_fields(s2)->0);
}

/// `Some(x)` as an `Option<int>`.
pub open spec fn opt_int(o: Option<i64>) -> Option<int> {
    match o {
        Some(x) => Some(x as int),
        None => None,
    }
}

fn month_from_name(v: &Vec<char>, lo: usize, hi: usize) -> (r: Option<u32>)
    requires
        lo <= hi <= v.len(),
    ensures
        r == month_number(v@.subrange(lo as int, hi as int)),
{
    if range_eq_str(v, lo, hi, "Jan") {
        Some(1)
    } else if range_eq_str(v, lo, hi, "Feb") {
        Some(2)
    } else if range_eq_str(v, lo, hi, "Mar") {
        Some(3)
    } else if range_eq_str(v, lo, hi, "Apr") {
        Some(4)
    } else if range_eq_str(v, lo, hi, "May") {
        Some(5)
    } else if range_eq_str(v, lo, hi, "Jun") {
        Some(6)
    } else if range_eq_str(v, lo, hi, "Jul") {
        Some(7)
    } else if range_eq_str(v, lo, hi, "Aug") {
        Some(8)
    } else if range_eq_str(v, lo, hi, "Sep") {
        Some(9)
    } else if range_eq_str(v, lo, hi, "Oct") {
        Some(10)
    } else if range_eq_str(v, lo, hi, "Nov") {
        Some(11)
    } else if range_eq_str(v, lo, hi, "Dec") {
        Some(12)
    } else {
        None
    }
}

/// Rust's division of a negative number by 400 (rounding towards zero),
/// applied as the day count applies it, is division rounding down.
proof fn lemma_era(y2: int)
    ensures
        (if y2 >= 0 {
            y2 / 400
        } else {
            -((-(y2 - 399)) / 400)
        }) == y2 / 400,
        0 <= y2 - (y2 / 400) * 400 < 400,
{
    if y2 < 0 {
        let k = -y2;
        assert(-((k + 399) / 400) == (-k) / 400) by (nonlinear_arith)
            requires
                k > 0,
        ;
    }
}

/// Days since 1970-01-01 of a civil (proleptic Gregorian) date: day 0 is
/// 1970-01-01 and each next calendar day counts one more
/// (`lemma_civil_days_epoch`, `lemma_civil_days_next_date`). Input whose
/// arithmetic would overflow an `i64` is excluded.
pub fn days_from_civil(y: i64, m: u32, d: u32) -> (r: i64)
    requires
        days_fit(y as int, m as int, d as int),
    ensures
        r == civil_days(y as int, m as int, d as int),
{
    let y = if m <= 2 {
        y - 1
    } else {
        y
    };
    proof {
        lemma_era(y as int);
    }
    let era = if y >= 0 {
        y
    } else {
        y - 399
    } / 400;
    let yoe = y - era * 400;
    let mp = if m > 2 {
        m as i64 - 3
    } else {
        m as i64 + 9
    };
    let doy = (153 * mp + 2) / 5 + d as i64 - 1;
    let doe = yoe * 365 + yoe / 4 - yoe / 100 + doy;
    era * 146097 + doe - 719468
}

/// Whether every intermediate value of the timestamp of `f` fits in an `i64`.
fn timestamp_fits_exec(f: &DateFields) -> (b: bool)
    requires
        1 <= f.month <= 12,
    ensures
        b == timestamp_fits(*f),
{
    let lo: i128 = -9223372036854775808i128;
    let hi: i128 = 9223372036854775807i128;
    let m = f.month;
    let y = f.year as i128;
    let y2 = if m <= 2 {
        y - 1
    } else {
        y
    };
    if y2 < lo {
        return false;
    }
    if y2 < 0 && y2 - 399 < lo {
        return false;
    }
    proof {
        lemma_era(y2 as int);
    }
    let era = if y2 >= 0 {
        y2
    } else {
        y2 - 399
    } / 400;
    let yoe = y2 - era * 400;
    let mp: i128 = if m > 2 {
        m as i128 - 3
    } else {
        m as i128 + 9
    };
    let doy = (153 * mp + 2) / 5 + f.day as i128 - 1;
    let doe = yoe * 365 + yoe / 4 - yoe / 100 + doy;
    let a = era * 146097;
    if a < lo || a > hi {
        return false;
    }
    let b = a + doe;
    if b < lo || b > hi {
        return false;
    }
    let days = b - 719468;
    if days < lo || days > hi {
        return false;
    }
    let t1 = days * 86400;
    if t1 < lo || t1 > hi {
        return false;
    }
    let t2 = f.hour as i128 * 3600;
    if t2 < lo || t2 > hi {
        return false;
    }
    let t3 = t1 + t2;
    if t3 < lo || t3 > hi {
        return false;
    }
    let t4 = f.minute as i128 * 60;
    if t4 < lo || t4 > hi {
        return false;
    }
    let t5 = t3 + t4;
    if t5 < lo || t5 > hi {
        return false;
    }
    let t6 = t5 + f.second as i128;
    if t6 < lo || t6 > hi {
        return false;
    }
    true
}

/// The ranges of the non-empty pieces among `r`.
fn non_empty_ranges(v: &Vec<char>, r: &Vec<(usize, usize)>, pieces: Ghost<Seq<Seq<char>>>) -> (out: Vec<(usize, usize)>)
    requires
        r.len() == pieces@.len(),
        forall|n: int|
            0 <= n < r.len() ==> (#[trigger] r[n]).0 <= r[n].1 <= v.len() && v@.subrange(
                r[n].0 as int,
                r[n].1 as int,
            ) == pieces@[n],
    ensures
        out.len() == non_empty(pieces@).len(),
        forall|n: int|
            0 <= n < out.len() ==> (#[trigger] out[n]).0 <= out[n].1 <= v.len() && v@.subrange(
                out[n].0 as int,
                out[n].1 as int,
            ) == non_empty(pieces@)[n],
{
    let ghost ps = pieces@;
    let mut out: Vec<(usize, usize)> = Vec::new();
    let mut k: usize = 0;
    proof {
        assert(ps.take(0) =~= Seq::<Seq<char>>::empty());
    }
    while k < r.len()
        invariant
            k <= r.len() == ps.len(),
            forall|n: int|
                0 <= n < r.len() ==> (#[trigger] r[n]).0 <= r[n].1 <= v.len() && v@.subrange(
                    r[n].0 as int,
                    r[n].1 as int,
                ) == ps[n],
            out.len() == non_empty(ps.take(k as int)).len(),
            forall|n: int|
                0 <= n < out.len() ==> (#[trigger] out[n]).0 <= out[n].1 <= v.len() && v@.subrange(
                    out[n].0 as int,
                    out[n].1 as int,
                ) == non_empty(ps.take(k as int))[n],
        decreases r.len() - k,
    {
        proof {
            assert(ps.take(k + 1).drop_last() =~= ps.take(k as int));
            assert(ps.take(k + 1).last() == ps[k as int]);
        }
        let (a, b) = r[k];
        if a < b {
            out.push((a, b));
        }
        k += 1;
    }
    proof {
        assert(ps.take(k as int) =~= ps);
    }
    out
}

/// The fields of the HTTP date `s`, as `date_fields` reads them.
fn date_fields_exec(s: &str) -> (r: Option<DateFields>)
    ensures
        r == date_fields(s@),
        r matches Some(f) ==> 1 <= f.month <= 12,
{
    let v = to_chars(s);
    let pieces = split_ranges(&v, 0, v.len(), CharClass::Whitespace);
    proof {
        assert(v@.subrange(0, v.len() as int) =~= s@);
    }
    let w = non_empty_ranges(&v, &pieces, Ghost(split(s@, CharClass::Whitespace)));
    if w.len() != 6 {
        return None;
    }
    if !range_eq_str(&v, w[5].0, w[5].1, "GMT") {
        return None;
    }
    let day = match parse_u32_range(&v, w[1].0, w[1].1) {
        Some(x) => x,
        None => return None,
    };
    let month = match month_from_name(&v, w[2].0, w[2].1) {
        Some(x) => x,
        None => return None,
    };
    let year = match parse_i64_range(&v, w[3].0, w[3].1) {
        Some(x) => x,
        None => return None,
    };
    let time = split_ranges(&v, w[4].0, w[4].1, CharClass::Is(':'));
    if time.len() != 3 {
        return None;
    }
    let hour = match parse_i64_range(&v, time[0].0, time[0].1) {
        Some(x) => x,
        None => return None,
    };
    let minute = match parse_i64_range(&v, time[1].0, time[1].1) {
        Some(x) => x,
        None => return None,
    };
    let second = match parse_i64_range(&v, time[2].0, time[2].1) {
        Some(x) => x,
        None => return None,
    };
    Some(DateFields { day, month, year, hour, minute, second })
}

/// Parses an RFC 1123 HTTP date (`Sun, 06 Nov 1994 08:49:37 GMT`) into a
/// Unix timestamp. This is the only date format `Expires` and `Date` are
/// allowed to use in current HTTP, so nothing else is supported.
///
/// Where the fields denote a date whose arithmetic leaves the `i64` range,
/// the computation would overflow: such input is excluded (see
/// `http_date_in_range`).
pub fn parse_http_date(s: &str) -> (r: Option<i64>)
    requires
        http_date_fits(s@),
    ensures
        opt_int(r) == http_date(s@),
{
    match date_fields_exec(s) {
        Some(f) => {
            let days = days_from_civil(f.year, f.month, f.day);
            Some(days * 86400 + f.hour * 3600 + f.minute * 60 + f.second)
        },
        None => None,
    }
}

/// Whether `parse_http_date` can convert `s` without overflowing an `i64`.
pub fn http_date_in_range(s: &str) -> (b: bool)
    ensures
        b == http_date_fits(s@),
{
    match date_fields_exec(s) {
        Some(f) => timestamp_fits_exec(&f),
        None => true,
    }
}

} // verus!
