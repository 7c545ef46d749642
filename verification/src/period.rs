//! Calendar dates ("YYYY-MM-DD") and months ("YYYY-MM").
//!
//! Every period-scoped query works on half-open date ranges
//! (`start()` .. `end_exclusive()`), which is why a date must be the exact,
//! zero-padded text: lexicographic order on that text is then calendar order.
use vstd::prelude::*;
use chrono::{Datelike, Local, NaiveDate};

use crate::error::{AppError, Result};
use crate::text::{
    concat, decimal, digit_char, digit_value, fmt_int_padded, int_text_pad, is_digit, pad_zero,
    str_eq,
};

verus! {

/// The earliest year chrono's dates reach.
pub const MIN_YEAR: i32 = -262143;

/// The latest year chrono's dates reach.
pub const MAX_YEAR: i32 = 262142;

/// Gregorian leap years.
pub open spec fn is_leap_year(y: int) -> bool {
    (y % 4 == 0 && y % 100 != 0) || y % 400 == 0
}

/// Number of days of month `m` of year `y`.
pub open spec fn days_in_month(y: int, m: int) -> int {
    if m == 2 {
        if is_leap_year(y) {
            29
        } else {
            28
        }
    } else if m == 4 || m == 6 || m == 9 || m == 11 {
        30
    } else {
        31
    }
}

/// A date the calendar has, within the years a date value can hold.
pub open spec fn valid_ymd(y: int, m: int, d: int) -> bool {
    &&& MIN_YEAR <= y <= MAX_YEAR
    &&& 1 <= m <= 12
    &&& 1 <= d <= days_in_month(y, m)
}

/// The text `%Y` renders for a year: four zero-padded digits in 0..=9999,
/// otherwise an explicit sign followed by at least four digits.
pub open spec fn year_text(y: int) -> Seq<char> {
    if 0 <= y <= 9999 {
        pad_zero(decimal(y as nat), 4)
    } else if y > 9999 {
        seq!['+'] + pad_zero(decimal(y as nat), 4)
    } else {
        seq!['-'] + pad_zero(decimal((-y) as nat), 4)
    }
}

/// The text `%Y-%m-%d` renders for a date.
pub open spec fn date_text(y: int, m: int, d: int) -> Seq<char> {
    year_text(y) + seq!['-'] + pad_zero(decimal(m as nat), 2) + seq!['-'] + pad_zero(
        decimal(d as nat),
        2,
    )
}

/// `s` is "DDDD-DD-DD" (ten characters, digits and two dashes).
pub open spec fn date_shape(s: Seq<char>) -> bool {
    &&& s.len() == 10
    &&& is_digit(s[0]) && is_digit(s[1]) && is_digit(s[2]) && is_digit(s[3])
    &&& s[4] == '-'
    &&& is_digit(s[5]) && is_digit(s[6])
    &&& s[7] == '-'
    &&& is_digit(s[8]) && is_digit(s[9])
}

/// The year that the four leading digits of a YYYY-MM-DD text spell.
pub open spec fn shape_year(s: Seq<char>) -> int {
    1000 * digit_value(s[0]) + 100 * digit_value(s[1]) + 10 * digit_value(s[2]) + digit_value(
        s[3],
    )
}

/// The month that the digits after the first dash spell.
pub open spec fn shape_month(s: Seq<char>) -> int {
    10 * digit_value(s[5]) + digit_value(s[6])
}

/// The day that the digits after the second dash spell.
pub open spec fn shape_day(s: Seq<char>) -> int {
    10 * digit_value(s[8]) + digit_value(s[9])
}

/// `s` is a well-formed, zero-padded YYYY-MM-DD calendar date.
pub open spec fn is_canonical_date(s: Seq<char>) -> bool {
    date_shape(s) && valid_ymd(shape_year(s), shape_month(s), shape_day(s))
}

/// What chrono's `NaiveDate::parse_from_str(s, "%Y-%m-%d")` yields, as
/// (year, month, day).
pub uninterp spec fn chrono_parse_ymd(s: Seq<char>) -> Option<(i32, u32, u32)>;

/// After some leading white space, `s` starts with a digit or a sign.
pub open spec fn starts_like_year(s: Seq<char>) -> bool {
    exists|i: int|
        0 <= i < s.len() && (is_digit(#[trigger] s[i]) || s[i] == '+' || s[i] == '-') && forall|j: int|
            0 <= j < i ==> crate::text::is_white_space(#[trigger] s[j])
}

/// Parses `s` with chrono's `NaiveDate::parse_from_str(s, "%Y-%m-%d")`.
/// The contract names the result and claims three facts of chrono's
/// parser: whatever it accepts is a real calendar date within its year
/// range; on the exact "DDDD-DD-DD" shape it reads exactly those digits
/// (accepting them iff they form a calendar date); and the year field,
/// read first, skips leading white space and then needs a digit or a sign.
/// Its further handling of other shapes (unpadded fields, signs) is left
/// unsaid.
#[verifier::external_body]
fn parse_ymd(s: &str) -> (r: Option<(i32, u32, u32)>)
    ensures
        r == chrono_parse_ymd(s@),
        r matches Some((y, m, d)) ==> valid_ymd(y as int, m as int, d as int),
        r is Some ==> starts_like_year(s@),
        date_shape(s@) ==> r == (if valid_ymd(shape_year(s@), shape_month(s@), shape_day(s@)) {
            Some((shape_year(s@) as i32, shape_month(s@) as u32, shape_day(s@) as u32))
        } else {
            None
        }),
{
    match NaiveDate::parse_from_str(s, "%Y-%m-%d") {
        Ok(d) => Some((d.year(), d.month(), d.day())),
        Err(_) => None,
    }
}

/// Renders a valid date with chrono's `NaiveDate::format("%Y-%m-%d")`,
/// whose year/month/day rendering is stated in full by `date_text`.
#[verifier::external_body]
pub(crate) fn format_ymd(y: i32, m: u32, d: u32) -> (r: String)
    requires
        valid_ymd(y as int, m as int, d as int),
    ensures
        r@ == date_text(y as int, m as int, d as int),
{
    match NaiveDate::from_ymd_opt(y, m, d) {
        Some(date) => date.format("%Y-%m-%d").to_string(),
        None => String::new(),
    }
}

/// Today's local date: the system clock (`SystemTime::now`, read as time
/// since 1970), placed on chrono's time line (`DateTime::from_timestamp`)
/// and seen in the local time zone (`with_timezone(&Local)`). `None` when
/// the clock reads before 1970 or beyond chrono's range. It depends on the
/// clock and time zone, so only the validity of a date it yields is
/// claimed.
#[verifier::external_body]
fn local_today() -> (r: Option<(i32, u32, u32)>)
    ensures
        r matches Some((y, m, d)) ==> valid_ymd(y as int, m as int, d as int),
{
    let since = std::time::SystemTime::now().duration_since(std::time::UNIX_EPOCH).ok()?;
    let secs = i64::try_from(since.as_secs()).ok()?;
    let utc = chrono::DateTime::from_timestamp(secs, since.subsec_nanos())?;
    let day = utc.with_timezone(&Local).date_naive();
    Some((day.year(), day.month(), day.day()))
}

/// The error when the system clock gives no date.
fn clock_error() -> (e: AppError)
    ensures
        e is Io,
{
    AppError::Io(crate::text::owned("system clock reads before 1970 or beyond the supported range"))
}

/// Days from 1970-01-01 to (y, m, d) in the proleptic Gregorian calendar.
pub open spec fn day_number(y: int, m: int, d: int) -> int {
    let yy = if m <= 2 {
        y - 1
    } else {
        y
    };
    let era = yy / 400;
    let yoe = yy - era * 400;
    let mp = (m + 9) % 12;
    let doy = (153 * mp + 2) / 5 + d - 1;
    let doe = yoe * 365 + yoe / 4 - yoe / 100 + doy;
    era * 146097 + doe - 719468
}

/// Some date of chrono's range lies exactly `n` days before (y, m, d).
pub open spec fn date_reachable(y: int, m: int, d: int, n: int) -> bool {
    exists|a: int, b: int, c: int|
        valid_ymd(a, b, c) && #[trigger] day_number(a, b, c) == day_number(y, m, d) - n
}

/// The date chrono computes for `n` days before (y, m, d), as
/// (year, month, day); `None` when `n` days is beyond chrono's time-delta
/// range or the result is beyond its date range.
pub uninterp spec fn chrono_days_before(y: i32, m: u32, d: u32, n: i64) -> Option<(i32, u32, u32)>;

/// Steps a valid date `n` days back with chrono (`TimeDelta::try_days`,
/// then `NaiveDate::checked_sub_signed`). The contract names the result
/// and claims that chrono yields a date exactly when one of its range lies
/// `n` days before, and that the date it yields is that real calendar
/// date. (Any such `n` is within the day counts a `TimeDelta` holds, and
/// within `i32`, so neither step refuses it first.)
#[verifier::external_body]
fn days_before_ymd(y: i32, m: u32, d: u32, n: i64) -> (r: Option<(i32, u32, u32)>)
    requires
        valid_ymd(y as int, m as int, d as int),
    ensures
        r == chrono_days_before(y, m, d, n),
        r is Some <==> date_reachable(y as int, m as int, d as int, n as int),
        r matches Some((a, b, c)) ==> valid_ymd(a as int, b as int, c as int) && day_number(
            a as int,
            b as int,
            c as int,
        ) == day_number(y as int, m as int, d as int) - n,
{
    let date = match NaiveDate::from_ymd_opt(y, m, d) {
        Some(date) => date,
        None => return None,
    };
    let delta = match chrono::TimeDelta::try_days(n) {
        Some(delta) => delta,
        None => return None,
    };
    match date.checked_sub_signed(delta) {
        Some(x) => Some((x.year(), x.month(), x.day())),
        None => None,
    }
}

/// The date `n` days before the valid date (y, m, d), rendered
/// "YYYY-MM-DD"; `None` when chrono cannot represent it.
pub fn days_before(y: i32, m: u32, d: u32, n: i64) -> (r: Option<String>)
    requires
        valid_ymd(y as int, m as int, d as int),
    ensures
        r is Some <==> chrono_days_before(y, m, d, n) is Some,
        chrono_days_before(y, m, d, n) is Some <==> date_reachable(y as int, m as int, d as int, n as int),
        r matches Some(t) ==> ({
            let (a, b, c) = chrono_days_before(y, m, d, n)->0;
            &&& t@ == date_text(a as int, b as int, c as int)
            &&& valid_ymd(a as int, b as int, c as int)
            &&& day_number(a as int, b as int, c as int) == day_number(y as int, m as int, d as int) - n
        }),
{
    match days_before_ymd(y, m, d, n) {
        Some((a, b, c)) => Some(format_ymd(a, b, c)),
        None => None,
    }
}

/// Today's local date as (year, month, day); an I/O error when the system
/// clock gives none.
pub fn today_ymd() -> (r: Result<(i32, u32, u32)>)
    ensures
        r matches Ok((y, m, d)) ==> valid_ymd(y as int, m as int, d as int),
        r matches Err(e) ==> e is Io,
{
    match local_today() {
        Some(t) => Ok(t),
        None => Err(clock_error()),
    }
}

/// The date (y, m, day) rendered "YYYY-MM-DD" when that day exists in the
/// month (chrono's `with_day`), else `None`.
pub fn with_day(y: i32, m: u32, day: u32) -> (r: Option<String>)
    requires
        MIN_YEAR <= y <= MAX_YEAR,
        1 <= m <= 12,
    ensures
        r is Some <==> 1 <= day <= days_in_month(y as int, m as int),
        r matches Some(t) ==> t@ == date_text(y as int, m as int, day as int),
{
    let leap = (y % 4 == 0 && y % 100 != 0) || y % 400 == 0;
    let last: u32 = if m == 2 {
        if leap {
            29
        } else {
            28
        }
    } else if m == 4 || m == 6 || m == 9 || m == 11 {
        30
    } else {
        31
    };
    if 1 <= day && day <= last {
        Some(format_ymd(y, m, day))
    } else {
        None
    }
}

// ---------------------------------------------------------------------------
// Facts relating the digit spec functions.
// ---------------------------------------------------------------------------

/// A digit character reads as a digit and renders back as itself.
pub proof fn lemma_digit_roundtrip(c: char)
    requires
        is_digit(c),
    ensures
        digit_char(digit_value(c)) == c,
        0 <= digit_value(c) <= 9,
{
    let u = c as u32;
    vstd::utf8::char_u32_cast(c, u);
    assert(('0' as u32) == 48);
    assert(('9' as u32) == 57);
    if u == 48 {
        vstd::utf8::char_u32_cast('0', 48);
    } else if u == 49 {
        vstd::utf8::char_u32_cast('1', 49);
    } else if u == 50 {
        vstd::utf8::char_u32_cast('2', 50);
    } else if u == 51 {
        vstd::utf8::char_u32_cast('3', 51);
    } else if u == 52 {
        vstd::utf8::char_u32_cast('4', 52);
    } else if u == 53 {
        vstd::utf8::char_u32_cast('5', 53);
    } else if u == 54 {
        vstd::utf8::char_u32_cast('6', 54);
    } else if u == 55 {
        vstd::utf8::char_u32_cast('7', 55);
    } else if u == 56 {
        vstd::utf8::char_u32_cast('8', 56);
    } else {
        vstd::utf8::char_u32_cast('9', 57);
    }
}

/// The character of digit `k` is a digit that reads back as `k`.
pub proof fn lemma_digit_char(k: int)
    requires
        0 <= k <= 9,
    ensures
        is_digit(digit_char(k)),
        digit_value(digit_char(k)) == k,
{
    assert(('0' as u32) == 48);
    assert(('1' as u32) == 49);
    assert(('2' as u32) == 50);
    assert(('3' as u32) == 51);
    assert(('4' as u32) == 52);
    assert(('5' as u32) == 53);
    assert(('6' as u32) == 54);
    assert(('7' as u32) == 55);
    assert(('8' as u32) == 56);
    assert(('9' as u32) == 57);
}

/// Four digits of `y` (0..=9999), most significant first.
pub open spec fn four_digits(y: int) -> Seq<char> {
    seq![
        digit_char(y / 1000),
        digit_char((y / 100) % 10),
        digit_char((y / 10) % 10),
        digit_char(y % 10),
    ]
}

/// `v` (below 100) as two decimal digits.
pub open spec fn two_digits(v: int) -> Seq<char> {
    seq![digit_char(v / 10), digit_char(v % 10)]
}

/// A year below 10000, zero-padded to four places, is its four digits.
pub proof fn lemma_pad4(y: int)
    requires
        0 <= y <= 9999,
    ensures
        pad_zero(decimal(y as nat), 4) == four_digits(y),
{
    reveal_with_fuel(decimal, 5);
    if y < 10 {
        assert(pad_zero(decimal(y as nat), 4) =~= four_digits(y));
    } else if y < 100 {
        assert(decimal(y as nat) =~= seq![digit_char(y / 10), digit_char(y % 10)]);
        assert(pad_zero(decimal(y as nat), 4) =~= four_digits(y));
    } else if y < 1000 {
        assert(decimal((y / 10) as nat) =~= seq![digit_char(y / 100), digit_char((y / 10) % 10)]);
        assert(pad_zero(decimal(y as nat), 4) =~= four_digits(y));
    } else {
        assert(decimal((y / 100) as nat) =~= seq![digit_char(y / 1000), digit_char((y / 100) % 10)]);
        assert(decimal((y / 10) as nat) =~= seq![
            digit_char(y / 1000),
            digit_char((y / 100) % 10),
            digit_char((y / 10) % 10),
        ]);
        assert(pad_zero(decimal(y as nat), 4) =~= four_digits(y));
    }
}

/// A value below 100, zero-padded to two places, is its two digits.
pub proof fn lemma_pad2(v: int)
    requires
        0 <= v <= 99,
    ensures
        pad_zero(decimal(v as nat), 2) == two_digits(v),
{
    reveal_with_fuel(decimal, 3);
    if v < 10 {
        assert(pad_zero(decimal(v as nat), 2) =~= two_digits(v));
    } else {
        assert(decimal(v as nat) =~= two_digits(v));
    }
}

/// Years 0..=9999 render as four digits; any other year takes five or
/// more characters.
pub proof fn lemma_year_text_len(y: int)
    ensures
        !(0 <= y <= 9999) ==> year_text(y).len() >= 5,
        0 <= y <= 9999 ==> year_text(y) == four_digits(y),
{
    if 0 <= y <= 9999 {
        lemma_pad4(y);
    }
}

/// Rendering a date in 0..=9999 gives the canonical shape, and reading its
/// digits back gives the same date.
#[verifier::rlimit(50)]
pub proof fn lemma_date_text_shape(y: int, m: int, d: int)
    requires
        0 <= y <= 9999,
        1 <= m <= 12,
        1 <= d <= 31,
    ensures
        date_shape(date_text(y, m, d)),
        shape_year(date_text(y, m, d)) == y,
        shape_month(date_text(y, m, d)) == m,
        shape_day(date_text(y, m, d)) == d,
{
    lemma_pad4(y);
    lemma_pad2(m);
    lemma_pad2(d);
    let s = date_text(y, m, d);
    assert(s =~= four_digits(y) + seq!['-'] + two_digits(m) + seq!['-'] + two_digits(d));
    lemma_digit_char(y / 1000);
    lemma_digit_char((y / 100) % 10);
    lemma_digit_char((y / 10) % 10);
    lemma_digit_char(y % 10);
    lemma_digit_char(m / 10);
    lemma_digit_char(m % 10);
    lemma_digit_char(d / 10);
    lemma_digit_char(d % 10);
}

proof fn lemma_digits_div(a: int, b: int, c: int, d: int)
    requires
        0 <= a <= 9,
        0 <= b <= 9,
        0 <= c <= 9,
        0 <= d <= 9,
    ensures
        (1000 * a + 100 * b + 10 * c + d) / 1000 == a,
        ((1000 * a + 100 * b + 10 * c + d) / 100) % 10 == b,
        ((1000 * a + 100 * b + 10 * c + d) / 10) % 10 == c,
        (1000 * a + 100 * b + 10 * c + d) % 10 == d,
        (10 * c + d) / 10 == c,
        (10 * c + d) % 10 == d,
{
    assert((1000 * a + 100 * b + 10 * c + d) / 1000 == a) by (nonlinear_arith)
        requires
            0 <= a <= 9,
            0 <= b <= 9,
            0 <= c <= 9,
            0 <= d <= 9,
    ;
    assert(((1000 * a + 100 * b + 10 * c + d) / 100) % 10 == b) by (nonlinear_arith)
        requires
            0 <= a <= 9,
            0 <= b <= 9,
            0 <= c <= 9,
            0 <= d <= 9,
    ;
    assert(((1000 * a + 100 * b + 10 * c + d) / 10) % 10 == c) by (nonlinear_arith)
        requires
            0 <= a <= 9,
            0 <= b <= 9,
            0 <= c <= 9,
            0 <= d <= 9,
    ;
}

/// The weight of position `i` of a "YYYY-MM-DD" text when it is read as
/// the number YYYYMMDD (the dashes weigh nothing).
pub open spec fn place(i: int) -> int {
    if i == 0 {
        10_000_000
    } else if i == 1 {
        1_000_000
    } else if i == 2 {
        100_000
    } else if i == 3 {
        10_000
    } else if i == 5 {
        1000
    } else if i == 6 {
        100
    } else if i == 8 {
        10
    } else if i == 9 {
        1
    } else {
        0
    }
}

/// The part of the number YYYYMMDD that positions `i` onward spell.
pub open spec fn tail_key(s: Seq<char>, i: int) -> int
    decreases 10 - i,
{
    if i < 0 || i >= 10 {
        0
    } else {
        digit_value(s[i]) * place(i) + tail_key(s, i + 1)
    }
}

/// What positions `i` onward can spell at most, plus one.
pub open spec fn tail_cap(i: int) -> int {
    if i <= 0 {
        100_000_000
    } else if i == 1 {
        10_000_000
    } else if i == 2 {
        1_000_000
    } else if i == 3 {
        100_000
    } else if i == 4 || i == 5 {
        10_000
    } else if i == 6 {
        1000
    } else if i == 7 || i == 8 {
        100
    } else if i == 9 {
        10
    } else {
        1
    }
}

/// Two date-shaped texts compare from position `i` on as the numbers their
/// remaining digits spell.
pub proof fn lemma_lt_tail(a: Seq<char>, b: Seq<char>, i: int)
    requires
        date_shape(a),
        date_shape(b),
        0 <= i <= 10,
    ensures
        crate::text::lt_from(a, b, i) <==> tail_key(a, i) < tail_key(b, i),
        0 <= tail_key(a, i) < tail_cap(i),
        0 <= tail_key(b, i) < tail_cap(i),
    decreases 10 - i,
{
    if i < 10 {
        lemma_lt_tail(a, b, i + 1);
        if i == 4 || i == 7 {
            assert(a[i] == b[i]);
        } else {
            assert(is_digit(a[i]) && is_digit(b[i])) by {
                if i == 0 {
                } else if i == 1 {
                } else if i == 2 {
                } else if i == 3 {
                } else if i == 5 {
                } else if i == 6 {
                } else if i == 8 {
                } else {
                }
            }
            let da = digit_value(a[i]);
            let db = digit_value(b[i]);
            assert(0 <= da <= 9 && 0 <= db <= 9);
            assert(tail_cap(i + 1) == place(i) && tail_cap(i) == 10 * place(i));
            assert(0 <= da * place(i) <= 9 * place(i)) by (nonlinear_arith)
                requires
                    0 <= da <= 9,
                    place(i) > 0,
            ;
            assert(0 <= db * place(i) <= 9 * place(i)) by (nonlinear_arith)
                requires
                    0 <= db <= 9,
                    place(i) > 0,
            ;
            if da < db {
                assert(da * place(i) + place(i) <= db * place(i)) by (nonlinear_arith)
                    requires
                        da < db,
                        place(i) > 0,
                ;
            } else if db < da {
                assert(db * place(i) + place(i) <= da * place(i)) by (nonlinear_arith)
                    requires
                        db < da,
                        place(i) > 0,
                ;
            }
            if a[i] == b[i] {
                assert(da == db);
            } else {
                assert(da != db) by {
                    vstd::utf8::char_u32_cast(a[i], a[i] as u32);
                    vstd::utf8::char_u32_cast(b[i], b[i] as u32);
                }
            }
        }
    }
}

/// Read as a number, a date-shaped text is YYYYMMDD.
pub proof fn lemma_tail_key_value(s: Seq<char>)
    ensures
        tail_key(s, 0) == shape_year(s) * 10000 + shape_month(s) * 100 + shape_day(s),
{
    reveal_with_fuel(tail_key, 11);
}

/// A canonical-shaped text is the rendering of the digits it holds.
pub proof fn lemma_shape_text(s: Seq<char>)
    requires
        date_shape(s),
    ensures
        date_text(shape_year(s), shape_month(s), shape_day(s)) == s,
{
    lemma_digit_roundtrip(s[0]);
    lemma_digit_roundtrip(s[1]);
    lemma_digit_roundtrip(s[2]);
    lemma_digit_roundtrip(s[3]);
    lemma_digit_roundtrip(s[5]);
    lemma_digit_roundtrip(s[6]);
    lemma_digit_roundtrip(s[8]);
    lemma_digit_roundtrip(s[9]);
    let y = shape_year(s);
    let m = shape_month(s);
    let d = shape_day(s);
    lemma_digits_div(digit_value(s[0]), digit_value(s[1]), digit_value(s[2]), digit_value(s[3]));
    lemma_digits_div(0, 0, digit_value(s[5]), digit_value(s[6]));
    lemma_digits_div(0, 0, digit_value(s[8]), digit_value(s[9]));
    lemma_pad4(y);
    lemma_pad2(m);
    lemma_pad2(d);
    assert(four_digits(y) =~= s.subrange(0, 4));
    assert(two_digits(m) =~= s.subrange(5, 7));
    assert(two_digits(d) =~= s.subrange(8, 10));
    assert(date_text(y, m, d) =~= s);
}

/// Checks that `date` is a well-formed, zero-padded YYYY-MM-DD calendar
/// date: exactly the text chrono renders back for the date it parses.
/// A non-padded "2026-7-4" is refused, since it would defeat the half-open
/// date-range comparisons every report relies on.
pub fn validate_date(date: &str) -> (r: Result<()>)
    ensures
        r is Ok <==> is_canonical_date(date@),
        r matches Err(e) ==> e is Invalid,
{
    let ok = if date.unicode_len() == 10 {
        match parse_ymd(date) {
            Some((y, m, d)) => {
                let rendered = format_ymd(y, m, d);
                let same = str_eq(rendered.as_str(), date);
                proof {
                    lemma_year_text_len(y as int);
                    if same && 0 <= y <= 9999 {
                        lemma_date_text_shape(y as int, m as int, d as int);
                    }
                }
                same
            },
            None => false,
        }
    } else {
        false
    };
    proof {
        if is_canonical_date(date@) {
            lemma_shape_text(date@);
        }
    }
    if ok {
        Ok(())
    } else {
        Err(AppError::Invalid(concat(
            concat("Invalid date: '", date).as_str(),
            "' (expected YYYY-MM-DD)",
        )))
    }
}

/// Canonical "today" as YYYY-MM-DD (chrono's rendering of the local date);
/// an I/O error when the system clock gives no date.
pub fn today() -> (r: Result<String>)
    ensures
        r matches Ok(t) ==> exists|y: int, m: int, d: int| valid_ymd(y, m, d) && t@ == date_text(y, m, d),
        r matches Err(e) ==> e is Io,
{
    let (y, m, d) = today_ymd()?;
    Ok(format_ymd(y, m, d))
}

// ---------------------------------------------------------------------------
// Periods.
// ---------------------------------------------------------------------------

/// The text a period of `year`/`month` carries: `{year:04}-{month:02}`.
pub open spec fn period_text(y: int, m: int) -> Seq<char> {
    int_text_pad(y, 4) + seq!['-'] + int_text_pad(m, 2)
}

/// `s` is "DDDD-DD" (seven characters, digits around one dash).
pub open spec fn period_shape(s: Seq<char>) -> bool {
    &&& s.len() == 7
    &&& is_digit(s[0]) && is_digit(s[1]) && is_digit(s[2]) && is_digit(s[3])
    &&& s[4] == '-'
    &&& is_digit(s[5]) && is_digit(s[6])
}

/// `s` is a canonical "YYYY-MM" month.
pub open spec fn is_canonical_period(s: Seq<char>) -> bool {
    period_shape(s) && 1 <= shape_month(s) <= 12
}


fn digit_at(s: &str, i: usize) -> (r: Option<u32>)
    requires
        i < s@.len(),
    ensures
        r is Some <==> is_digit(s@[i as int]),
        r matches Some(d) ==> d == digit_value(s@[i as int]),
{
    let c = s.get_char(i);
    let v = c as u32;
    if v >= 48 && v <= 57 {
        Some(v - 48)
    } else {
        None
    }
}

/// Whether `s` is a canonical "YYYY-MM" month.
pub fn is_period_text(s: &str) -> (r: bool)
    ensures
        r == is_canonical_period(s@),
{
    if s.unicode_len() != 7 {
        return false;
    }
    if s.get_char(4) != '-' {
        return false;
    }
    let d0 = digit_at(s, 0);
    let d1 = digit_at(s, 1);
    let d2 = digit_at(s, 2);
    let d3 = digit_at(s, 3);
    let d5 = digit_at(s, 5);
    let d6 = digit_at(s, 6);
    match (d0, d1, d2, d3, d5, d6) {
        (Some(_), Some(_), Some(_), Some(_), Some(a), Some(b)) => {
            let m = 10 * a + b;
            1 <= m && m <= 12
        },
        _ => false,
    }
}

/// The first day of the month after month `m` of year `y`.
pub open spec fn next_month_start(y: int, m: int) -> Seq<char> {
    if m == 12 {
        date_text(y + 1, 1, 1)
    } else {
        date_text(y, m + 1, 1)
    }
}

/// A calendar month, e.g. "2026-07". Backs all period-scoped queries via
/// half-open date ranges (`start()` .. `end_exclusive()`).
#[derive(Debug)]
pub struct Period {
    text: String,
    year: i32,
    month: u32,
}

impl View for Period {
    type V = Seq<char>;

    closed spec fn view(&self) -> Seq<char> {
        self.text@
    }
}

impl Period {
    #[verifier::type_invariant]
    spec fn well_formed(self) -> bool {
        &&& 1 <= self.month <= 12
        &&& self.text@ == period_text(self.year as int, self.month as int)
    }

    /// The year this period lies in.
    pub closed spec fn year_of(self) -> int {
        self.year as int
    }

    /// The month (1..=12) of this period.
    pub closed spec fn month_of(self) -> int {
        self.month as int
    }

    fn from_parts(year: i32, month: u32) -> (p: Period)
        requires
            1 <= month <= 12,
        ensures
            p@ == period_text(year as int, month as int),
            p.year_of() == year,
            p.month_of() == month,
    {
        let y = fmt_int_padded(year as i64, 4);
        let m = fmt_int_padded(month as i64, 2);
        let mut text = concat(y.as_str(), "-");
        text = concat(text.as_str(), m.as_str());
        proof {
            reveal_strlit("-");
            assert(text@ =~= period_text(year as int, month as int));
        }
        Period { text, year, month }
    }

    /// The year of this period.
    pub fn year(&self) -> (r: i32)
        ensures
            r == self.year_of(),
    {
        self.year
    }

    /// The month (1..=12) of this period.
    pub fn month(&self) -> (r: u32)
        ensures
            r == self.month_of(),
            1 <= r <= 12,
    {
        proof {
            use_type_invariant(self);
        }
        self.month
    }

    /// The current local month; an I/O error when the system clock gives
    /// no date.
    pub fn current() -> (r: Result<Period>)
        ensures
            r matches Ok(p) ==> 1 <= p.month_of() <= 12 && p@ == period_text(p.year_of(), p.month_of()),
            r matches Err(e) ==> e is Io,
    {
        let (y, m, _) = today_ymd()?;
        Ok(Period::from_parts(y, m))
    }

    /// The month `month` (1..=12) of `year`.
    pub fn new(year: i32, month: u32) -> (r: Result<Period>)
        ensures
            r is Ok <==> 1 <= month <= 12,
            r matches Ok(p) ==> p@ == period_text(year as int, month as int) && p.year_of()
                == year && p.month_of() == month,
            r matches Err(e) ==> e is Invalid,
    {
        if month < 1 || month > 12 {
            let msg = concat("Invalid month: ", fmt_int_padded(month as i64, 0).as_str());
            return Err(AppError::Invalid(msg));
        }
        Ok(Period::from_parts(year, month))
    }

    /// Parses a "YYYY-MM" month: the text, with "-01" appended, is read by
    /// chrono as a date, and the month is rendered back canonically.
    pub fn parse(s: &str) -> (r: Result<Period>)
        ensures
            r is Ok <==> chrono_parse_ymd(s@ + "-01"@) is Some,
            r matches Ok(p) ==> ({
                let (y, m, _) = chrono_parse_ymd(s@ + "-01"@)->0;
                p.year_of() == y && p.month_of() == m && p@ == period_text(y as int, m as int)
            }),
            period_shape(s@) ==> (r is Ok <==> 1 <= shape_month(s@) <= 12),
            is_canonical_period(s@) ==> (r matches Ok(p) && p@ == s@ && p.year_of() == shape_year(
                s@,
            ) && p.month_of() == shape_month(s@)),
            !starts_like_year(s@ + "-01"@) ==> r is Err,
            r matches Err(e) ==> e is Invalid,
    {
        let full = concat(s, "-01");
        proof {
            reveal_strlit("-01");
            if period_shape(s@) {
                assert(date_shape(full@));
                assert(shape_year(full@) == shape_year(s@));
                assert(shape_month(full@) == shape_month(s@));
                assert(shape_day(full@) == 1) by {
                    lemma_digit_char(0);
                    lemma_digit_char(1);
                }
                lemma_digit_roundtrip(s@[0]);
                lemma_digit_roundtrip(s@[1]);
                lemma_digit_roundtrip(s@[2]);
                lemma_digit_roundtrip(s@[3]);
                lemma_digit_roundtrip(s@[5]);
                lemma_digit_roundtrip(s@[6]);
            }
        }
        match parse_ymd(full.as_str()) {
            Some((y, m, _)) => {
                let p = Period::from_parts(y, m);
                proof {
                    if is_canonical_period(s@) {
                        lemma_period_text_shape(s@);
                    }
                }
                Ok(p)
            },
            None => {
                let msg = concat(concat("Invalid period: '", s).as_str(), "' (expected YYYY-MM)");
                Err(AppError::Invalid(msg))
            },
        }
    }

    /// The period containing a date, as chrono reads the date.
    pub fn from_date(date: &str) -> (r: Result<Period>)
        ensures
            r is Ok <==> chrono_parse_ymd(date@) is Some,
            r matches Ok(p) ==> ({
                let (y, m, _) = chrono_parse_ymd(date@)->0;
                p.year_of() == y && p.month_of() == m && p@ == period_text(y as int, m as int)
            }),
            is_canonical_date(date@) ==> (r matches Ok(p) && p@ == date@.subrange(0, 7)),
            r matches Err(e) ==> e is Invalid,
    {
        match parse_ymd(date) {
            Some((y, m, _)) => {
                let p = Period::from_parts(y, m);
                proof {
                    if is_canonical_date(date@) {
                        lemma_period_text_shape(date@.subrange(0, 7));
                    }
                }
                Ok(p)
            },
            None => {
                let msg = concat(concat("Invalid date: '", date).as_str(), "'");
                Err(AppError::Invalid(msg))
            },
        }
    }

    pub fn as_str(&self) -> (r: &str)
        ensures
            r@ == self@,
    {
        self.text.as_str()
    }

    /// Inclusive start date of the period, "YYYY-MM-01".
    pub fn start(&self) -> (r: String)
        ensures
            r@ == self@ + "-01"@,
    {
        concat(self.text.as_str(), "-01")
    }

    /// Exclusive end date: the first day of the following month, rendered by
    /// chrono. Years above 9999 are outside what `start()` round-trips
    /// through a date, so they are not accepted.
    pub fn end_exclusive(&self) -> (r: String)
        requires
            MIN_YEAR <= self.year_of() <= 9999,
        ensures
            r@ == next_month_start(self.year_of(), self.month_of()),
    {
        proof {
            use_type_invariant(self);
        }
        if self.month == 12 {
            format_ymd(self.year + 1, 1, 1)
        } else {
            format_ymd(self.year, self.month + 1, 1)
        }
    }
}

impl Clone for Period {
    fn clone(&self) -> (r: Period)
        ensures
            r@ == self@,
            r.year_of() == self.year_of(),
            r.month_of() == self.month_of(),
    {
        proof {
            use_type_invariant(self);
        }
        Period { text: self.text.clone(), year: self.year, month: self.month }
    }
}

/// A canonical period text is the rendering of its own year and month.
pub proof fn lemma_period_text_shape(s: Seq<char>)
    requires
        period_shape(s),
    ensures
        period_text(shape_year(s), shape_month(s)) == s,
        0 <= shape_year(s) <= 9999,
        0 <= shape_month(s) <= 99,
{
    lemma_digit_roundtrip(s[0]);
    lemma_digit_roundtrip(s[1]);
    lemma_digit_roundtrip(s[2]);
    lemma_digit_roundtrip(s[3]);
    lemma_digit_roundtrip(s[5]);
    lemma_digit_roundtrip(s[6]);
    let y = shape_year(s);
    let m = shape_month(s);
    lemma_digits_div(digit_value(s[0]), digit_value(s[1]), digit_value(s[2]), digit_value(s[3]));
    lemma_digits_div(0, 0, digit_value(s[5]), digit_value(s[6]));
    lemma_pad4(y);
    lemma_pad2(m);
    assert(period_text(y, m) =~= s);
}

} // verus!
