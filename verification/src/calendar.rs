//! Proleptic Gregorian calendar dates and the month/day arithmetic on them.

use vstd::prelude::*;
use crate::text::decimal;
use chrono::Datelike;

verus! {

/// The first year a date may carry.
pub const FIRST_YEAR: i32 = -262143;

/// The last year a date may carry.
pub const LAST_YEAR: i32 = 262142;

/// Mathematical model of a calendar date.
pub struct Ymd {
    pub year: int,
    pub month: int,
    pub day: int,
}

pub open spec fn ymd(year: int, month: int, day: int) -> Ymd {
    Ymd { year, month, day }
}

pub open spec fn is_leap_year(year: int) -> bool {
    year % 4 == 0 && (year % 100 != 0 || year % 400 == 0)
}

pub open spec fn month_length(year: int, month: int) -> int {
    if month == 2 {
        if is_leap_year(year) { 29 } else { 28 }
    } else if month == 4 || month == 6 || month == 9 || month == 11 {
        30
    } else {
        31
    }
}

/// A date that exists in the calendar and in the supported range of years.
pub open spec fn is_valid_ymd(d: Ymd) -> bool {
    &&& FIRST_YEAR <= d.year <= LAST_YEAR
    &&& 1 <= d.month <= 12
    &&& 1 <= d.day <= month_length(d.year, d.month)
}

/// Whether `a` falls strictly before `b` in the calendar.
pub open spec fn precedes(a: Ymd, b: Ymd) -> bool {
    ||| a.year < b.year
    ||| a.year == b.year && a.month < b.month
    ||| a.year == b.year && a.month == b.month && a.day < b.day
}

/// The calendar day after `d`.
pub open spec fn next_day(d: Ymd) -> Ymd {
    if d.day < month_length(d.year, d.month) {
        ymd(d.year, d.month, d.day + 1)
    } else if d.month < 12 {
        ymd(d.year, d.month + 1, 1)
    } else {
        ymd(d.year + 1, 1, 1)
    }
}

/// The calendar day before `d`.
pub open spec fn previous_day(d: Ymd) -> Ymd {
    if d.day > 1 {
        ymd(d.year, d.month, d.day - 1)
    } else if d.month > 1 {
        ymd(d.year, d.month - 1, month_length(d.year, d.month - 1))
    } else {
        ymd(d.year - 1, 12, 31)
    }
}

/// The date `n` days after `d`.
pub open spec fn advance_days(d: Ymd, n: nat) -> Ymd
    decreases n,
{
    if n == 0 {
        d
    } else {
        advance_days(next_day(d), (n - 1) as nat)
    }
}

/// Months elapsed since January of year zero.
pub open spec fn month_index(d: Ymd) -> int {
    d.year * 12 + d.month - 1
}

/// `d` moved by `n` whole months, its day clamped to the length of the
/// month it lands in (so January 31 plus one month is the last day of February).
pub open spec fn shift_months(d: Ymd, n: int) -> Ymd {
    let t = month_index(d) + n;
    let y = t / 12;
    let m = t % 12 + 1;
    ymd(y, m, if d.day <= month_length(y, m) { d.day } else { month_length(y, m) })
}

/// Whether moving `d` by `n` months lands in a month whose successor month
/// still lies in the supported range of years.
pub open spec fn can_shift_months(d: Ymd, n: int) -> bool {
    FIRST_YEAR * 12 <= month_index(d) + n < LAST_YEAR * 12 + 11
}

/// Text of a number zero-padded to at least `width` digits.
pub open spec fn padded(n: nat, width: nat) -> Seq<char>
    decreases width,
{
    if width <= 1 {
        decimal(n)
    } else if n < pow10(width - 1) {
        seq!['0'] + padded(n, (width - 1) as nat)
    } else {
        decimal(n)
    }
}

pub open spec fn pow10(k: int) -> nat
    decreases k,
{
    if k <= 0 { 1 } else { 10 * pow10(k - 1) }
}

/// The year as the ISO 8601 text of `%Y`: four digits for years 0 to 9999,
/// otherwise an explicit sign and at least four digits.
pub open spec fn iso_year_text(y: int) -> Seq<char> {
    if 0 <= y <= 9999 {
        padded(y as nat, 4)
    } else if y < 0 {
        seq!['-'] + padded((-y) as nat, 4)
    } else {
        seq!['+'] + padded(y as nat, 4)
    }
}

/// `YYYY-MM-DD`, the text of a date.
pub open spec fn iso_text(d: Ymd) -> Seq<char> {
    iso_year_text(d.year) + seq!['-'] + padded(d.month as nat, 2) + seq!['-'] + padded(
        d.day as nat,
        2,
    )
}

/// What chrono's `NaiveDate::parse_from_str(text, "%Y-%m-%d")` yields for a
/// text: the year, month and day of the date, or `None` when it fails.
pub uninterp spec fn iso_date_parse(text: Seq<char>) -> Option<(int, int, int)>;

pub open spec fn as_ymd(t: (int, int, int)) -> Ymd {
    ymd(t.0, t.1, t.2)
}

pub open spec fn widen(r: Option<(i32, u32, u32)>) -> Option<(int, int, int)> {
    match r {
        Some(t) => Some((t.0 as int, t.1 as int, t.2 as int)),
        None => None,
    }
}

/// A calendar date that is valid by construction.
#[derive(Clone, Copy, Debug, PartialEq, Eq, Structural, Hash)]
pub struct Date {
    year: i32,
    month: u32,
    day: u32,
}

impl View for Date {
    type V = Ymd;

    closed spec fn view(&self) -> Ymd {
        ymd(self.year as int, self.month as int, self.day as int)
    }
}

impl Date {
    #[verifier::type_invariant]
    spec fn inv(self) -> bool {
        is_valid_ymd(self@)
    }

    /// Makes the date `year-month-day`, or `None` when no such date exists.
    pub fn from_ymd_opt(year: i32, month: u32, day: u32) -> (r: Option<Date>)
        ensures
            r is Some <==> is_valid_ymd(ymd(year as int, month as int, day as int)),
            r matches Some(d) ==> d@ == ymd(year as int, month as int, day as int),
    {
        if chrono_date_exists(year, month, day) {
            Some(Date { year, month, day })
        } else {
            None
        }
    }

    pub fn year(&self) -> (r: i32)
        ensures
            r == self@.year,
            is_valid_ymd(self@),
    {
        proof { use_type_invariant(self); }
        self.year
    }

    pub fn month(&self) -> (r: u32)
        ensures
            r == self@.month,
            is_valid_ymd(self@),
    {
        proof { use_type_invariant(self); }
        self.month
    }

    pub fn day(&self) -> (r: u32)
        ensures
            r == self@.day,
            is_valid_ymd(self@),
    {
        proof { use_type_invariant(self); }
        self.day
    }

    /// Whether two values denote the same calendar day.
    pub fn same_day(&self, other: &Date) -> (r: bool)
        ensures
            r == (self@ == other@),
    {
        self.year == other.year && self.month == other.month && self.day == other.day
    }

    /// Whether `self` falls strictly before `other`.
    pub fn is_before(&self, other: &Date) -> (r: bool)
        ensures
            r == precedes(self@, other@),
    {
        self.year < other.year || (self.year == other.year && (self.month < other.month || (
        self.month == other.month && self.day < other.day)))
    }

    /// The previous calendar day, or `None` for the first supported date.
    fn pred_opt(&self) -> (r: Option<Date>)
        ensures
            r is None <==> self@ == ymd(FIRST_YEAR as int, 1, 1),
            r matches Some(p) ==> p@ == previous_day(self@),
    {
        proof { use_type_invariant(self); }
        match chrono_pred_opt(*self) {
            Some(t) => {
                let (y, m, d) = t;
                proof {
                    assert(is_valid_ymd(ymd(y as int, m as int, d as int)));
                }
                Some(Date { year: y, month: m, day: d })
            },
            None => None,
        }
    }

    /// The date as `YYYY-MM-DD` text.
    pub fn iso_string(&self) -> (r: String)
        ensures
            r@ == iso_text(self@),
    {
        chrono_iso_text(*self)
    }

    /// Reads a date written in `%Y-%m-%d` form, as chrono parses it.
    pub fn parse_iso(text: &str) -> (r: Option<Date>)
        ensures
            r is Some <==> iso_date_parse(text@) is Some,
            r matches Some(d) ==> d@ == as_ymd(iso_date_parse(text@)->0),
    {
        match chrono_parse_iso(text) {
            Some(t) => {
                let (y, m, d) = t;
                Some(Date { year: y, month: m, day: d })
            },
            None => None,
        }
    }
}

/// Number of days in `month` of `year`, found as the day of the month of the
/// day before the first of the following month.
fn days_in_month(year: i32, month: u32) -> (r: u32)
    requires
        FIRST_YEAR <= year <= LAST_YEAR,
        1 <= month <= 12,
        !(year == LAST_YEAR && month == 12),
    ensures
        r as int == month_length(year as int, month as int),
{
    let (next_year, next_month) = if month == 12 {
        (year + 1, 1u32)
    } else {
        (year, month + 1)
    };
    match Date::from_ymd_opt(next_year, next_month, 1) {
        Some(first_of_next) => match first_of_next.pred_opt() {
            Some(last_of_this) => last_of_this.day(),
            None => {
                assert(false);
                0
            },
        },
        None => {
            assert(false);
            0
        },
    }
}

/// Adds `n` whole months to `date`, clamping the day to the length of the
/// month it lands in.
pub fn add_months(date: Date, n: i64) -> (r: Date)
    requires
        can_shift_months(date@, n as int),
    ensures
        r@ == shift_months(date@, n as int),
{
    proof { use_type_invariant(&date); }
    let total: i64 = date.year as i64 * 12 + (date.month as i64 - 1) + n;
    let q: i64 = if total >= 0 {
        total / 12
    } else {
        -((11 - total) / 12)
    };
    let rem: i64 = total - q * 12;
    proof {
        assert(q * 12 <= total < q * 12 + 12) by (nonlinear_arith)
            requires
                total >= 0 ==> q == total / 12,
                total < 0 ==> q == -((11 - total) / 12),
        ;
        assert(q == total as int / 12 && rem == total as int % 12) by (nonlinear_arith)
            requires
                q * 12 <= total < q * 12 + 12,
                rem == total - q * 12,
        ;
    }
    let year = q as i32;
    let month = (rem + 1) as u32;
    let dim = days_in_month(year, month);
    let day = if date.day <= dim {
        date.day
    } else {
        dim
    };
    Date { year, month, day }
}

/// Whole days from `earlier` to `later`.
pub fn days_from(earlier: Date, later: Date) -> (r: i64)
    requires
        !precedes(later@, earlier@),
    ensures
        r >= 0,
        advance_days(earlier@, r as nat) == later@,
{
    chrono_days_since(later, earlier)
}

/// Trusted: `chrono::NaiveDate::from_ymd_opt` returns `Some` exactly for the
/// proleptic Gregorian dates whose year lies in chrono's range.
#[verifier::external_body]
fn chrono_date_exists(year: i32, month: u32, day: u32) -> (r: bool)
    ensures
        r == is_valid_ymd(ymd(year as int, month as int, day as int)),
{
    chrono::NaiveDate::from_ymd_opt(year, month, day).is_some()
}

/// Trusted: `chrono::NaiveDate::pred_opt` gives the previous calendar day,
/// and `None` only for the first date chrono supports.
#[verifier::external_body]
fn chrono_pred_opt(d: Date) -> (r: Option<(i32, u32, u32)>)
    ensures
        r is None <==> d@ == ymd(FIRST_YEAR as int, 1, 1),
        r matches Some(t) ==> ymd(t.0 as int, t.1 as int, t.2 as int) == previous_day(d@),
{
    let date = chrono::NaiveDate::from_ymd_opt(d.year, d.month, d.day).unwrap();
    match date.pred_opt() {
        Some(p) => Some((p.year(), p.month(), p.day())),
        None => None,
    }
}

/// Trusted: `later - earlier` on `chrono::NaiveDate`, read with
/// `TimeDelta::num_days`, counts the calendar days from `earlier` to `later`.
#[verifier::external_body]
fn chrono_days_since(later: Date, earlier: Date) -> (r: i64)
    ensures
        !precedes(later@, earlier@) ==> r >= 0 && advance_days(earlier@, r as nat) == later@,
{
    let l = chrono::NaiveDate::from_ymd_opt(later.year, later.month, later.day).unwrap();
    let e = chrono::NaiveDate::from_ymd_opt(earlier.year, earlier.month, earlier.day).unwrap();
    (l - e).num_days()
}

/// Trusted: chrono's `Display` for `NaiveDate` writes `%Y-%m-%d`, with an
/// explicit sign on years outside 0 to 9999.
#[verifier::external_body]
fn chrono_iso_text(d: Date) -> (r: String)
    ensures
        r@ == iso_text(d@),
{
    chrono::NaiveDate::from_ymd_opt(d.year, d.month, d.day).unwrap().to_string()
}

/// Trusted: `chrono::NaiveDate::parse_from_str(text, "%Y-%m-%d")`; its result
/// is named by `iso_date_parse`, and a parsed date is always a valid one.
#[verifier::external_body]
fn chrono_parse_iso(text: &str) -> (r: Option<(i32, u32, u32)>)
    ensures
        widen(r) == iso_date_parse(text@),
        r matches Some(t) ==> is_valid_ymd(ymd(t.0 as int, t.1 as int, t.2 as int)),
{
    match chrono::NaiveDate::parse_from_str(text, "%Y-%m-%d") {
        Ok(p) => Some((p.year(), p.month(), p.day())),
        Err(_) => None,
    }
}

} // verus!
