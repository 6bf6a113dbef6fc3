use vstd::prelude::*;
use crate::text::{is_ws, push_char, wordlike};
use chrono::Datelike;

verus! {

/// A calendar date of the proleptic Gregorian calendar, held as plain
/// year, month and day numbers.  The line grammar writes dates with a
/// four-digit year, so well-formed dates keep the year below ten
/// thousand.
#[derive(Clone, Copy, Debug, PartialEq, Eq, Structural)]
pub struct Date {
    pub year: u32,
    pub month: u32,
    pub day: u32,
}

pub open spec fn is_leap_year(y: int) -> bool {
    y % 4 == 0 && (y % 100 != 0 || y % 400 == 0)
}

pub open spec fn days_in_month(y: int, m: int) -> int {
    if m == 2 {
        if is_leap_year(y) { 29 } else { 28 }
    } else if m == 4 || m == 6 || m == 9 || m == 11 {
        30
    } else {
        31
    }
}

impl Date {
    /// A real calendar date that the four-digit line grammar can write.
    pub open spec fn wf(self) -> bool {
        self.year <= 9999
        && 1 <= self.month <= 12
        && 1 <= self.day <= days_in_month(self.year as int, self.month as int)
    }

    /// The date with the given numbers, when they name a real calendar
    /// date with a four-digit year; nothing otherwise.
    pub fn from_ymd(year: i32, month: u32, day: u32) -> (r: Option<Date>)
        ensures
            r == (if 0 <= year <= 9999 && 1 <= month <= 12 && 1 <= day <= days_in_month(
                year as int,
                month as int,
            ) {
                Some(Date { year: year as u32, month, day })
            } else {
                None::<Date>
            }),
            r matches Some(d) ==> d.wf(),
    {
        if year < 0 || year > 9999 || month < 1 || month > 12 {
            return None;
        }
        let y = year as u32;
        if day < 1 || day > days_in_month_exec(y, month) {
            return None;
        }
        Some(Date { year: y, month, day })
    }
}

pub fn leap_year(y: u32) -> (r: bool)
    ensures
        r == is_leap_year(y as int),
{
    y % 4 == 0 && (y % 100 != 0 || y % 400 == 0)
}

pub fn days_in_month_exec(y: u32, m: u32) -> (r: u32)
    ensures
        r == days_in_month(y as int, m as int),
{
    if m == 2 {
        if leap_year(y) { 29 } else { 28 }
    } else if m == 4 || m == 6 || m == 9 || m == 11 {
        30
    } else {
        31
    }
}

/// Order on dates: by year, then month, then day.
pub open spec fn date_lt(a: Date, b: Date) -> bool {
    a.year < b.year
    || (a.year == b.year && a.month < b.month)
    || (a.year == b.year && a.month == b.month && a.day < b.day)
}

pub fn date_before(a: &Date, b: &Date) -> (r: bool)
    ensures
        r == date_lt(*a, *b),
{
    a.year < b.year
    || (a.year == b.year && a.month < b.month)
    || (a.year == b.year && a.month == b.month && a.day < b.day)
}

pub open spec fn is_digit(c: char) -> bool {
    48 <= c as u32 <= 57
}

pub open spec fn digit_val(c: char) -> int {
    c as u32 - 48
}

pub open spec fn digit_char(n: int) -> char {
    if n == 0 { '0' }
    else if n == 1 { '1' }
    else if n == 2 { '2' }
    else if n == 3 { '3' }
    else if n == 4 { '4' }
    else if n == 5 { '5' }
    else if n == 6 { '6' }
    else if n == 7 { '7' }
    else if n == 8 { '8' }
    else { '9' }
}

pub proof fn lemma_digit_char_val(n: int)
    requires
        0 <= n <= 9,
    ensures
        is_digit(digit_char(n)),
        digit_val(digit_char(n)) == n,
        !is_ws(digit_char(n)),
        digit_char(n) != '-',
{
}

/// The year written in the first four characters of a date token.
pub open spec fn token_year(t: Seq<char>) -> int {
    digit_val(t[0]) * 1000 + digit_val(t[1]) * 100 + digit_val(t[2]) * 10 + digit_val(t[3])
}

pub open spec fn token_month(t: Seq<char>) -> int {
    digit_val(t[5]) * 10 + digit_val(t[6])
}

pub open spec fn token_day(t: Seq<char>) -> int {
    digit_val(t[8]) * 10 + digit_val(t[9])
}

/// Whether `t` is a date token of the grammar: four digits, two
/// digits and two digits separated by `-`, naming a real calendar date.
pub open spec fn is_date_token(t: Seq<char>) -> bool {
    t.len() == 10
    && is_digit(t[0]) && is_digit(t[1]) && is_digit(t[2]) && is_digit(t[3])
    && t[4] == '-'
    && is_digit(t[5]) && is_digit(t[6])
    && t[7] == '-'
    && is_digit(t[8]) && is_digit(t[9])
    && 1 <= token_month(t) <= 12
    && 1 <= token_day(t) <= days_in_month(token_year(t), token_month(t))
}

/// The date a date token names.
pub open spec fn date_of_token(t: Seq<char>) -> Date {
    Date {
        year: token_year(t) as u32,
        month: token_month(t) as u32,
        day: token_day(t) as u32,
    }
}

/// A date token always names a real calendar date with a four-digit
/// year.
pub proof fn lemma_date_of_token_wf(t: Seq<char>)
    requires
        is_date_token(t),
    ensures
        date_of_token(t).wf(),
{
}

/// The canonical written form of a date: zero-padded `year-month-day`.
pub open spec fn date_chars(d: Date) -> Seq<char> {
    seq![
        digit_char(d.year as int / 1000),
        digit_char((d.year as int / 100) % 10),
        digit_char((d.year as int / 10) % 10),
        digit_char(d.year as int % 10),
        '-',
        digit_char(d.month as int / 10),
        digit_char(d.month as int % 10),
        '-',
        digit_char(d.day as int / 10),
        digit_char(d.day as int % 10),
    ]
}

/// Writing a well-formed date and reading the token back yields the
/// same date, and the written form is a word of the grammar.
pub proof fn lemma_date_chars_roundtrip(d: Date)
    requires
        d.wf(),
    ensures
        is_date_token(date_chars(d)),
        date_of_token(date_chars(d)) == d,
        wordlike(date_chars(d)),
        date_chars(d).len() == 10,
{
    let t = date_chars(d);
    let y = d.year as int;
    let m = d.month as int;
    let dd = d.day as int;
    assert(0 <= y / 1000 <= 9);
    assert(0 <= (y / 100) % 10 <= 9);
    assert(0 <= (y / 10) % 10 <= 9);
    assert(0 <= y % 10 <= 9);
    lemma_digit_char_val(y / 1000);
    lemma_digit_char_val((y / 100) % 10);
    lemma_digit_char_val((y / 10) % 10);
    lemma_digit_char_val(y % 10);
    lemma_digit_char_val(m / 10);
    lemma_digit_char_val(m % 10);
    lemma_digit_char_val(dd / 10);
    lemma_digit_char_val(dd % 10);
    assert(token_year(t) == (y / 1000) * 1000 + ((y / 100) % 10) * 100 + ((y / 10) % 10) * 10 + y
        % 10);
    assert((y / 1000) * 1000 + ((y / 100) % 10) * 100 + ((y / 10) % 10) * 10 + y % 10 == y) by {
        lemma_decompose(y);
    }
    assert(token_month(t) == (m / 10) * 10 + m % 10);
    assert((m / 10) * 10 + m % 10 == m);
    assert(token_day(t) == (dd / 10) * 10 + dd % 10);
    assert((dd / 10) * 10 + dd % 10 == dd);
    assert(!is_ws('-'));
    assert(wordlike(t)) by {
        assert(forall|j: int| 0 <= j < t.len() ==> !is_ws(t[j]));
    }
}

proof fn lemma_decompose(y: int)
    requires
        0 <= y <= 9999,
    ensures
        (y / 1000) * 1000 + ((y / 100) % 10) * 100 + ((y / 10) % 10) * 10 + y % 10 == y,
{
    assert((y / 1000) * 1000 + ((y / 100) % 10) * 100 + ((y / 10) % 10) * 10 + y % 10 == y) by (nonlinear_arith)
        requires
            0 <= y <= 9999,
    ;
}

/// The date named by a word of the line, if the word is a date token.
pub fn parse_date_token(t: &Vec<char>) -> (r: Option<Date>)
    ensures
        r == (if is_date_token(t@) {
            Some(date_of_token(t@))
        } else {
            None::<Date>
        }),
        r matches Some(d) ==> d.wf() && d == date_of_token(t@),
{
    if t.len() != 10 {
        return None;
    }
    if t[4] != '-' || t[7] != '-' {
        return None;
    }
    let v0 = match char_digit(t[0]) { Some(v) => v, None => { return None } };
    let v1 = match char_digit(t[1]) { Some(v) => v, None => { return None } };
    let v2 = match char_digit(t[2]) { Some(v) => v, None => { return None } };
    let v3 = match char_digit(t[3]) { Some(v) => v, None => { return None } };
    let v5 = match char_digit(t[5]) { Some(v) => v, None => { return None } };
    let v6 = match char_digit(t[6]) { Some(v) => v, None => { return None } };
    let v8 = match char_digit(t[8]) { Some(v) => v, None => { return None } };
    let v9 = match char_digit(t[9]) { Some(v) => v, None => { return None } };
    let year = v0 * 1000 + v1 * 100 + v2 * 10 + v3;
    let month = v5 * 10 + v6;
    let day = v8 * 10 + v9;
    if month < 1 || month > 12 {
        return None;
    }
    if day < 1 || day > days_in_month_exec(year, month) {
        return None;
    }
    Some(Date { year, month, day })
}

/// Appends the canonical written form of `d`.
pub fn push_date_chars(s: &mut String, d: &Date)
    requires
        d.wf(),
    ensures
        final(s)@ == old(s)@ + date_chars(*d),
{
    push_char(s, digit_to_char(d.year / 1000));
    push_char(s, digit_to_char((d.year / 100) % 10));
    push_char(s, digit_to_char((d.year / 10) % 10));
    push_char(s, digit_to_char(d.year % 10));
    push_char(s, '-');
    push_char(s, digit_to_char(d.month / 10));
    push_char(s, digit_to_char(d.month % 10));
    push_char(s, '-');
    push_char(s, digit_to_char(d.day / 10));
    push_char(s, digit_to_char(d.day % 10));
    proof {
        assert(final(s)@ =~= old(s)@ + date_chars(*d));
    }
}

/// The written digit for a value below ten.
pub fn digit_to_char(v: u32) -> (r: char)
    requires
        v <= 9,
    ensures
        r == digit_char(v as int),
{
    if v == 0 { '0' }
    else if v == 1 { '1' }
    else if v == 2 { '2' }
    else if v == 3 { '3' }
    else if v == 4 { '4' }
    else if v == 5 { '5' }
    else if v == 6 { '6' }
    else if v == 7 { '7' }
    else if v == 8 { '8' }
    else { '9' }
}

/// The value of a written digit, if `c` is one.
pub fn char_digit(c: char) -> (r: Option<u32>)
    ensures
        r == (if is_digit(c) {
            Some(digit_val(c) as u32)
        } else {
            None::<u32>
        }),
{
    let u = c as u32;
    if 48 <= u && u <= 57 {
        Some(u - 48)
    } else {
        None
    }
}

/// Relies on chrono's `Local::now().date_naive()` and `NaiveDate`'s
/// `year`, `month` and `day`: the current civil date of the machine's
/// time zone, with the month between 1 and 12 and the day between 1
/// and 31.  Which date comes back depends on the clock, so nothing
/// more is promised.
#[verifier::external_body]
fn today_ymd() -> (r: (i32, u32, u32))
    ensures
        1 <= r.1 <= 12,
        1 <= r.2 <= 31,
{
    let d = chrono::Local::now().date_naive();
    (d.year(), d.month(), d.day())
}

/// The current date as a library value, when the clock names a date
/// the grammar can write.
pub fn today() -> (r: Option<Date>)
    ensures
        r matches Some(d) ==> d.wf(),
{
    let (y, m, d) = today_ymd();
    Date::from_ymd(y, m, d)
}

} // verus!
