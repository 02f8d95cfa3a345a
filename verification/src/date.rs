//! Calendar dates.
//!
//! A `Date` holds a proleptic Gregorian calendar date as plain year, month
//! and day numbers.  Dates are written and parsed in `YYYY-MM-DD` form with
//! a four-digit year, so the supported years are `0000` through `9999`.

use vstd::prelude::*;

verus! {

/// A calendar date: year, month (1-12) and day of month (1-31).
#[derive(Clone, Copy, Debug, PartialEq, Eq, Structural)]
pub struct Date {
    pub year: u16,
    pub month: u8,
    pub day: u8,
}

/// Whether `y` is a leap year of the proleptic Gregorian calendar.
pub open spec fn spec_is_leap_year(y: int) -> bool {
    y % 4 == 0 && (y % 100 != 0 || y % 400 == 0)
}

/// Number of days in month `m` of year `y` (for `1 <= m <= 12`).
pub open spec fn spec_days_in_month(y: int, m: int) -> int {
    if m == 2 {
        if spec_is_leap_year(y) {
            29
        } else {
            28
        }
    } else if m == 4 || m == 6 || m == 9 || m == 11 {
        30
    } else {
        31
    }
}

/// A well-formed date: the month and day exist in the calendar, and the
/// year has at most four digits.
pub open spec fn date_wf(d: Date) -> bool {
    &&& d.year <= 9999
    &&& 1 <= d.month <= 12
    &&& 1 <= d.day <= spec_days_in_month(d.year as int, d.month as int)
}

impl Date {
    /// Well-formedness of this date.
    pub open spec fn wf(self) -> bool {
        date_wf(self)
    }
}

pub fn is_leap_year(y: u16) -> (r: bool)
    ensures
        r == spec_is_leap_year(y as int),
{
    y % 4 == 0 && (y % 100 != 0 || y % 400 == 0)
}

pub fn days_in_month(y: u16, m: u8) -> (r: u8)
    requires
        1 <= m <= 12,
    ensures
        r == spec_days_in_month(y as int, m as int),
{
    if m == 2 {
        if is_leap_year(y) {
            29
        } else {
            28
        }
    } else if m == 4 || m == 6 || m == 9 || m == 11 {
        30
    } else {
        31
    }
}

/// Number of leap years in the interval `[0, y)`.
pub open spec fn spec_leaps_before(y: int) -> int {
    if y <= 0 {
        0
    } else {
        1 + (y - 1) / 4 - (y - 1) / 100 + (y - 1) / 400
    }
}

/// Number of days in all years of the interval `[0, y)`.
pub open spec fn spec_days_before_year(y: int) -> int {
    365 * y + spec_leaps_before(y)
}

/// Number of days in the months `[1, m)` of year `y`.
pub open spec fn spec_days_before_month(y: int, m: int) -> int
    decreases m,
{
    if m <= 1 {
        0
    } else {
        spec_days_before_month(y, m - 1) + spec_days_in_month(y, m - 1)
    }
}

/// The index of a date in the sequence of all calendar days, counted from
/// 0000-01-01 as day zero.  Two dates differ in `day_number` by exactly the
/// number of calendar days between them.
pub open spec fn day_number(d: Date) -> int {
    spec_days_before_year(d.year as int) + spec_days_before_month(d.year as int, d.month as int)
        + d.day - 1
}

/// Chronological order on dates, as the order of their `(year, month, day)`
/// triples.
pub open spec fn spec_date_le(a: Date, b: Date) -> bool {
    if a.year != b.year {
        a.year < b.year
    } else if a.month != b.month {
        a.month < b.month
    } else {
        a.day <= b.day
    }
}

pub open spec fn spec_date_lt(a: Date, b: Date) -> bool {
    spec_date_le(a, b) && a != b
}

impl Date {
    /// Whether `self` is on or before `other` in chronological order.
    pub fn is_on_or_before(&self, other: &Date) -> (r: bool)
        ensures
            r == spec_date_le(*self, *other),
    {
        if self.year != other.year {
            self.year < other.year
        } else if self.month != other.month {
            self.month < other.month
        } else {
            self.day <= other.day
        }
    }

    /// The day number of this date, for counting days between dates.
    pub fn to_day_number(&self) -> (n: u32)
        requires
            self.wf(),
        ensures
            n == day_number(*self),
    {
        let y = self.year as u32;
        let leaps: u32 = if y == 0 {
            0
        } else {
            proof {
                vstd::arithmetic::div_mod::lemma_div_is_ordered_by_denominator(
                    (y - 1) as int,
                    4,
                    100,
                );
            }
            1 + (y - 1) / 4 - (y - 1) / 100 + (y - 1) / 400
        };
        let mut before_month: u32 = 0;
        let mut m: u8 = 1;
        while m < self.month
            invariant
                1 <= m <= self.month,
                self.wf(),
                y == self.year,
                before_month == spec_days_before_month(y as int, m as int),
                before_month <= 31 * (m - 1),
            decreases self.month - m,
        {
            before_month = before_month + days_in_month(self.year, m) as u32;
            m = m + 1;
        }
        365 * y + leaps + before_month + self.day as u32 - 1
    }
}

/// Whether `c` is a decimal digit.
pub open spec fn spec_is_digit(c: char) -> bool {
    '0' as u32 <= c as u32 <= '9' as u32
}

/// The value of the decimal digit `c`.
pub open spec fn spec_digit_val(c: char) -> int {
    c as u32 - '0' as u32
}

/// The decimal digit character for a value `k` in `0..=9`.
pub open spec fn spec_digit_char(k: int) -> char {
    if k == 0 {
        '0'
    } else if k == 1 {
        '1'
    } else if k == 2 {
        '2'
    } else if k == 3 {
        '3'
    } else if k == 4 {
        '4'
    } else if k == 5 {
        '5'
    } else if k == 6 {
        '6'
    } else if k == 7 {
        '7'
    } else if k == 8 {
        '8'
    } else {
        '9'
    }
}

/// The date denoted by a ten-character `YYYY-MM-DD` text, or `None` if the
/// text does not have that shape or does not name a calendar date.
pub open spec fn spec_date_of_text(s: Seq<char>) -> Option<Date> {
    if s.len() == 10 && spec_is_digit(s[0]) && spec_is_digit(s[1]) && spec_is_digit(s[2])
        && spec_is_digit(s[3]) && s[4] == '-' && spec_is_digit(s[5]) && spec_is_digit(s[6])
        && s[7] == '-' && spec_is_digit(s[8]) && spec_is_digit(s[9]) {
        let y = 1000 * spec_digit_val(s[0]) + 100 * spec_digit_val(s[1]) + 10 * spec_digit_val(
            s[2],
        ) + spec_digit_val(s[3]);
        let m = 10 * spec_digit_val(s[5]) + spec_digit_val(s[6]);
        let d = 10 * spec_digit_val(s[8]) + spec_digit_val(s[9]);
        let date = Date { year: y as u16, month: m as u8, day: d as u8 };
        if date_wf(date) {
            Some(date)
        } else {
            None
        }
    } else {
        None
    }
}

/// The canonical `YYYY-MM-DD` text of a date.
pub open spec fn spec_date_text(d: Date) -> Seq<char> {
    seq![
        spec_digit_char(d.year as int / 1000),
        spec_digit_char((d.year as int / 100) % 10),
        spec_digit_char((d.year as int / 10) % 10),
        spec_digit_char(d.year as int % 10),
        '-',
        spec_digit_char(d.month as int / 10),
        spec_digit_char(d.month as int % 10),
        '-',
        spec_digit_char(d.day as int / 10),
        spec_digit_char(d.day as int % 10),
    ]
}

fn char_digit_val(c: char) -> (v: u32)
    requires
        spec_is_digit(c),
    ensures
        v == spec_digit_val(c),
        v <= 9,
{
    c as u32 - '0' as u32
}

fn char_is_digit(c: char) -> (r: bool)
    ensures
        r == spec_is_digit(c),
{
    '0' <= c && c <= '9'
}

impl Date {
    /// Parses a `YYYY-MM-DD` text into a date, rejecting any other shape
    /// and any triple that is not a calendar date.
    pub fn parse(s: &str) -> (r: Option<Date>)
        ensures
            r == spec_date_of_text(s@),
            r is Some ==> r->0.wf(),
    {
        if s.unicode_len() != 10 {
            return None;
        }
        let c0 = s.get_char(0);
        let c1 = s.get_char(1);
        let c2 = s.get_char(2);
        let c3 = s.get_char(3);
        let c4 = s.get_char(4);
        let c5 = s.get_char(5);
        let c6 = s.get_char(6);
        let c7 = s.get_char(7);
        let c8 = s.get_char(8);
        let c9 = s.get_char(9);
        if !(char_is_digit(c0) && char_is_digit(c1) && char_is_digit(c2) && char_is_digit(c3)
            && c4 == '-' && char_is_digit(c5) && char_is_digit(c6) && c7 == '-' && char_is_digit(
            c8,
        ) && char_is_digit(c9)) {
            return None;
        }
        let y = 1000 * char_digit_val(c0) + 100 * char_digit_val(c1) + 10 * char_digit_val(c2)
            + char_digit_val(c3);
        let m = 10 * char_digit_val(c5) + char_digit_val(c6);
        let d = 10 * char_digit_val(c8) + char_digit_val(c9);
        let date = Date { year: y as u16, month: m as u8, day: d as u8 };
        if 1 <= date.month && date.month <= 12 && 1 <= date.day && date.day <= days_in_month(
            date.year,
            date.month,
        ) {
            Some(date)
        } else {
            None
        }
    }

    /// Renders this date as its canonical `YYYY-MM-DD` text.
    pub fn to_text(&self) -> (r: String)
        requires
            self.wf(),
        ensures
            r@ == spec_date_text(*self),
    {
        let mut out = String::new();
        out.append(digit_str((self.year / 1000) as u8));
        out.append(digit_str(((self.year / 100) % 10) as u8));
        out.append(digit_str(((self.year / 10) % 10) as u8));
        out.append(digit_str((self.year % 10) as u8));
        out.append("-");
        out.append(digit_str(self.month / 10));
        out.append(digit_str(self.month % 10));
        out.append("-");
        out.append(digit_str(self.day / 10));
        out.append(digit_str(self.day % 10));
        proof {
            reveal_strlit("-");
            assert(out@ =~= spec_date_text(*self));
        }
        out
    }
}

/// A date's canonical text holds only digits and dashes.
pub proof fn lemma_date_text_chars(d: Date)
    ensures
        forall|i: int|
            0 <= i < spec_date_text(d).len() ==> (spec_is_digit(#[trigger] spec_date_text(d)[i])
                || spec_date_text(d)[i] == '-'),
        spec_date_text(d).len() == 10,
{
    let t = spec_date_text(d);
    assert forall|i: int| 0 <= i < t.len() implies (spec_is_digit(#[trigger] t[i]) || t[i]
        == '-') by {
        if i != 4 && i != 7 {
            let k = if i == 0 {
                d.year as int / 1000
            } else if i == 1 {
                (d.year as int / 100) % 10
            } else if i == 2 {
                (d.year as int / 10) % 10
            } else if i == 3 {
                d.year as int % 10
            } else if i == 5 {
                d.month as int / 10
            } else if i == 6 {
                d.month as int % 10
            } else if i == 8 {
                d.day as int / 10
            } else {
                d.day as int % 10
            };
            assert(spec_is_digit(spec_digit_char(k)));
        }
    }
}

/// Parsing a well-formed date's canonical text gives the date back.
pub proof fn lemma_date_text_round_trip(d: Date)
    requires
        date_wf(d),
    ensures
        spec_date_of_text(spec_date_text(d)) == Some(d),
{
    let t = spec_date_text(d);
    lemma_date_text_chars(d);
    let y = d.year as int;
    let m = d.month as int;
    let dd = d.day as int;
    assert(spec_digit_val(spec_digit_char(y / 1000)) == y / 1000);
    assert(spec_digit_val(spec_digit_char((y / 100) % 10)) == (y / 100) % 10);
    assert(spec_digit_val(spec_digit_char((y / 10) % 10)) == (y / 10) % 10);
    assert(spec_digit_val(spec_digit_char(y % 10)) == y % 10);
    assert(spec_digit_val(spec_digit_char(m / 10)) == m / 10);
    assert(spec_digit_val(spec_digit_char(m % 10)) == m % 10);
    assert(spec_digit_val(spec_digit_char(dd / 10)) == dd / 10);
    assert(spec_digit_val(spec_digit_char(dd % 10)) == dd % 10);
    assert(1000 * (y / 1000) + 100 * ((y / 100) % 10) + 10 * ((y / 10) % 10) + y % 10 == y) by {
        vstd::arithmetic::div_mod::lemma_fundamental_div_mod(y, 10);
        vstd::arithmetic::div_mod::lemma_fundamental_div_mod(y / 10, 10);
        vstd::arithmetic::div_mod::lemma_fundamental_div_mod(y / 100, 10);
        assert(y / 10 / 10 == y / 100) by {
            vstd::arithmetic::div_mod::lemma_div_denominator(y, 10, 10);
        }
        assert(y / 100 / 10 == y / 1000) by {
            vstd::arithmetic::div_mod::lemma_div_denominator(y, 100, 10);
        }
    }
    assert(10 * (m / 10) + m % 10 == m) by {
        vstd::arithmetic::div_mod::lemma_fundamental_div_mod(m, 10);
    }
    assert(10 * (dd / 10) + dd % 10 == dd) by {
        vstd::arithmetic::div_mod::lemma_fundamental_div_mod(dd, 10);
    }
    assert(y / 1000 <= 9) by {
        assert(y <= 9999);
    }
}

/// The one-character text of the decimal digit `k`.
fn digit_str(k: u8) -> (r: &'static str)
    requires
        k <= 9,
    ensures
        r@ =~= seq![spec_digit_char(k as int)],
{
    let digits = "0123456789";
    proof {
        reveal_strlit("0123456789");
    }
    digits.substring_char(k as usize, (k + 1) as usize)
}

} // verus!
