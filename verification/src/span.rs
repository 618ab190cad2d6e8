//! The signed, calendar-honest difference between two dates.

use vstd::prelude::*;
use crate::calendar::{
    add_months, advance_days, days_from, is_valid_ymd, month_index, month_length, next_day,
    precedes, shift_months, Date, Ymd, LAST_YEAR,
};
use crate::text::{decimal, int_text, int_to_text, join_strings, join_texts, texts_of};

verus! {

/// Which side of `now` the target falls on.
#[derive(Clone, Copy, Debug, PartialEq, Eq, Structural)]
pub enum Direction {
    Past,
    Future,
    Today,
}

pub open spec fn direction_text(d: Direction) -> Seq<char> {
    match d {
        Direction::Past => seq!['p', 'a', 's', 't'],
        Direction::Future => seq!['f', 'u', 't', 'u', 'r', 'e'],
        Direction::Today => seq!['t', 'o', 'd', 'a', 'y'],
    }
}

impl Direction {
    /// Lowercase wire form, shared by every face (CLI text, MCP JSON).
    pub fn as_str(&self) -> (r: &'static str)
        ensures
            r@ == direction_text(*self),
    {
        proof {
            reveal_strlit("past");
            reveal_strlit("future");
            reveal_strlit("today");
        }
        match self {
            Direction::Past => "past",
            Direction::Future => "future",
            Direction::Today => "today",
        }
    }
}

/// A calendar-honest, signed difference between two dates.
///
/// `years`, `months`, and `days` are non-negative magnitudes; the sign lives
/// in `direction`.
#[derive(Debug, PartialEq, Eq)]
pub struct Span {
    pub years: i64,
    pub months: i64,
    pub days: i64,
    pub direction: Direction,
    pub humanized: String,
}

/// Mathematical model of a span.
pub struct SpanModel {
    pub years: int,
    pub months: int,
    pub days: int,
    pub direction: Direction,
    pub humanized: Seq<char>,
}

impl View for Span {
    type V = SpanModel;

    open spec fn view(&self) -> SpanModel {
        SpanModel {
            years: self.years as int,
            months: self.months as int,
            days: self.days as int,
            direction: self.direction,
            humanized: self.humanized@,
        }
    }
}

impl Clone for Span {
    fn clone(&self) -> (r: Self)
        ensures
            r@ == self@,
    {
        Span {
            years: self.years,
            months: self.months,
            days: self.days,
            direction: self.direction,
            humanized: self.humanized.clone(),
        }
    }
}

/// `months` whole months and then `days` days lead from `earlier` to `later`,
/// and `months` is the largest count of whole months that does not overshoot.
pub open spec fn is_calendar_gap(earlier: Ymd, later: Ymd, months: int, days: int) -> bool {
    &&& months >= 0
    &&& days >= 0
    &&& !precedes(later, shift_months(earlier, months))
    &&& precedes(later, shift_months(earlier, months + 1))
    &&& advance_days(shift_months(earlier, months), days as nat) == later
}

/// The breakdown `(years, months, days)` of the gap from `earlier` to `later`.
pub open spec fn is_ymd_breakdown(earlier: Ymd, later: Ymd, years: int, months: int, days: int) -> bool {
    &&& years >= 0
    &&& 0 <= months < 12
    &&& is_calendar_gap(earlier, later, 12 * years + months, days)
}

pub open spec fn word_year() -> Seq<char> {
    seq!['y', 'e', 'a', 'r']
}

pub open spec fn word_month() -> Seq<char> {
    seq!['m', 'o', 'n', 't', 'h']
}

pub open spec fn word_day() -> Seq<char> {
    seq!['d', 'a', 'y']
}

/// `1 year`, `2 months`, ...
pub open spec fn unit_text(n: int, name: Seq<char>) -> Seq<char> {
    int_text(n) + seq![' '] + name + if n == 1 { Seq::<char>::empty() } else { seq!['s'] }
}

/// The texts of the non-zero components, largest unit first.
pub open spec fn component_texts(years: int, months: int, days: int) -> Seq<Seq<char>> {
    (if years != 0 { seq![unit_text(years, word_year())] } else { Seq::empty() }) + (if months
        != 0 {
        seq![unit_text(months, word_month())]
    } else {
        Seq::empty()
    }) + (if days != 0 { seq![unit_text(days, word_day())] } else { Seq::empty() })
}

/// `6 years, 2 months, 30 days`; `0 days` when every component is zero.
pub open spec fn components_text(years: int, months: int, days: int) -> Seq<char> {
    let parts = component_texts(years, months, days);
    if parts.len() == 0 {
        seq!['0', ' ', 'd', 'a', 'y', 's']
    } else {
        join_texts(parts, seq![',', ' '])
    }
}

/// What `span_between(target, now)` is.
pub open spec fn is_span_between(target: Ymd, now: Ymd, s: Span) -> bool {
    if target == now {
        &&& s.years == 0 && s.months == 0 && s.days == 0
        &&& s.direction == Direction::Today
        &&& s.humanized@ == seq!['t', 'o', 'd', 'a', 'y']
    } else if precedes(target, now) {
        &&& s.direction == Direction::Past
        &&& is_ymd_breakdown(target, now, s.years as int, s.months as int, s.days as int)
        &&& s.humanized@ == components_text(s.years as int, s.months as int, s.days as int)
            + seq![' ', 'a', 'g', 'o']
    } else {
        &&& s.direction == Direction::Future
        &&& is_ymd_breakdown(now, target, s.years as int, s.months as int, s.days as int)
        &&& s.humanized@ == seq!['i', 'n', ' '] + components_text(
            s.years as int,
            s.months as int,
            s.days as int,
        )
    }
}

/// The breakdown `(years, months, days)` of the gap from `earlier` to
/// `later` (unique by `law_breakdown_unique`).
pub open spec fn breakdown(earlier: Ymd, later: Ymd) -> (int, int, int) {
    choose|t: (int, int, int)| is_ymd_breakdown(earlier, later, t.0, t.1, t.2)
}

/// The span of `target` seen from `now`, as a value.
pub open spec fn span_model(target: Ymd, now: Ymd) -> SpanModel {
    if target == now {
        SpanModel {
            years: 0,
            months: 0,
            days: 0,
            direction: Direction::Today,
            humanized: seq!['t', 'o', 'd', 'a', 'y'],
        }
    } else if precedes(target, now) {
        let b = breakdown(target, now);
        SpanModel {
            years: b.0,
            months: b.1,
            days: b.2,
            direction: Direction::Past,
            humanized: components_text(b.0, b.1, b.2) + seq![' ', 'a', 'g', 'o'],
        }
    } else {
        let b = breakdown(now, target);
        SpanModel {
            years: b.0,
            months: b.1,
            days: b.2,
            direction: Direction::Future,
            humanized: seq!['i', 'n', ' '] + components_text(b.0, b.1, b.2),
        }
    }
}

/// Whether the difference of two dates can be measured: chrono cannot find the
/// length of the last month it supports, so a later date in that month is out.
pub open spec fn can_span(a: Ymd, b: Ymd) -> bool {
    a == b || (month_index(a) < LAST_YEAR * 12 + 11 && month_index(b) < LAST_YEAR * 12 + 11)
}

pub proof fn lemma_shift_index(d: Ymd, n: int)
    ensures
        month_index(shift_months(d, n)) == month_index(d) + n,
        1 <= shift_months(d, n).month <= 12,
{
}

pub proof fn lemma_index_order(a: Ymd, b: Ymd)
    requires
        1 <= a.month <= 12,
        1 <= b.month <= 12,
        month_index(a) < month_index(b),
    ensures
        precedes(a, b),
{
}

pub proof fn lemma_precedes_next_day(d: Ymd)
    ensures
        precedes(d, next_day(d)),
{
}

pub proof fn lemma_advance_split(d: Ymd, a: nat, b: nat)
    ensures
        advance_days(d, a + b) == advance_days(advance_days(d, a), b),
    decreases a,
{
    if a > 0 {
        lemma_advance_split(next_day(d), (a - 1) as nat, b);
        assert((a + b - 1) as nat == (a - 1) as nat + b);
    }
}

pub proof fn lemma_advance_moves_forward(d: Ymd, n: nat)
    requires
        n > 0,
    ensures
        precedes(d, advance_days(d, n)),
    decreases n,
{
    lemma_precedes_next_day(d);
    assert(advance_days(d, n) == advance_days(next_day(d), (n - 1) as nat));
    if n > 1 {
        lemma_advance_moves_forward(next_day(d), (n - 1) as nat);
    } else {
        assert(advance_days(next_day(d), 0) == next_day(d));
    }
}

/// The breakdown of a gap between two dates is unique: only one count of
/// whole months and one count of leftover days fit.
pub proof fn law_calendar_gap_unique(earlier: Ymd, later: Ymd, m1: int, d1: int, m2: int, d2: int)
    requires
        is_calendar_gap(earlier, later, m1, d1),
        is_calendar_gap(earlier, later, m2, d2),
    ensures
        m1 == m2,
        d1 == d2,
{
    if m1 < m2 {
        lemma_shift_index(earlier, m1 + 1);
        lemma_shift_index(earlier, m2);
        if m1 + 1 < m2 {
            lemma_index_order(shift_months(earlier, m1 + 1), shift_months(earlier, m2));
        }
    } else if m2 < m1 {
        lemma_shift_index(earlier, m2 + 1);
        lemma_shift_index(earlier, m1);
        if m2 + 1 < m1 {
            lemma_index_order(shift_months(earlier, m2 + 1), shift_months(earlier, m1));
        }
    }
    assert(m1 == m2);
    let x = shift_months(earlier, m1);
    if d1 < d2 {
        lemma_advance_split(x, d1 as nat, (d2 - d1) as nat);
        lemma_advance_moves_forward(advance_days(x, d1 as nat), (d2 - d1) as nat);
        assert(d1 as nat + (d2 - d1) as nat == d2 as nat);
    } else if d2 < d1 {
        lemma_advance_split(x, d2 as nat, (d1 - d2) as nat);
        lemma_advance_moves_forward(advance_days(x, d2 as nat), (d1 - d2) as nat);
        assert(d2 as nat + (d1 - d2) as nat == d1 as nat);
    }
}


pub proof fn lemma_shift_zero(d: Ymd)
    requires
        1 <= d.month <= 12,
        1 <= d.day <= month_length(d.year, d.month),
    ensures
        shift_months(d, 0) == d,
{
    lemma_shift_index(d, 0);
}

/// Breaks the gap between two ordered dates into years, months and days:
/// the largest whole-month step that does not overshoot `later`, then the
/// leftover days.
fn ymd_between(earlier: Date, later: Date) -> (r: (i64, i64, i64))
    requires
        !precedes(later@, earlier@),
        month_index(later@) < LAST_YEAR * 12 + 11,
    ensures
        is_ymd_breakdown(earlier@, later@, r.0 as int, r.1 as int, r.2 as int),
{
    let ey = earlier.year();
    let em = earlier.month();
    let ly = later.year();
    let lm = later.month();
    let mut months_total: i64 = (ly as i64 - ey as i64) * 12 + (lm as i64 - em as i64);
    let ghost diff = months_total as int;
    proof {
        assert(diff == month_index(later@) - month_index(earlier@));
        if month_index(later@) < month_index(earlier@) {
            lemma_index_order(later@, earlier@);
        }
        lemma_shift_index(earlier@, diff + 1);
        lemma_index_order(later@, shift_months(earlier@, diff + 1));
        lemma_shift_zero(earlier@);
    }
    while later.is_before(&add_months(earlier, months_total))
        invariant
            0 <= months_total <= diff,
            diff == month_index(later@) - month_index(earlier@),
            month_index(later@) < LAST_YEAR * 12 + 11,
            is_valid_ymd(earlier@),
            is_valid_ymd(later@),
            !precedes(later@, earlier@),
            shift_months(earlier@, 0) == earlier@,
            precedes(later@, shift_months(earlier@, months_total + 1)),
        decreases months_total,
    {
        months_total = months_total - 1;
    }
    let anchor = add_months(earlier, months_total);
    let days = days_from(anchor, later);
    (months_total / 12, months_total % 12, days)
}

/// `n` with its unit, or `None` when `n` is zero.
fn unit(n: i64, name: &str) -> (r: Option<String>)
    ensures
        r is None <==> n == 0,
        r matches Some(t) ==> t@ == unit_text(n as int, name@),
{
    if n == 0 {
        None
    } else {
        let mut t = int_to_text(n);
        proof {
            reveal_strlit(" ");
            reveal_strlit("s");
        }
        t.append(" ");
        t.append(name);
        if n != 1 {
            t.append("s");
        }
        proof {
            if n == 1 {
                assert(t@ =~= unit_text(n as int, name@));
            }
        }
        Some(t)
    }
}

/// Joins the non-zero components into `6 years, 2 months, 30 days`.
pub fn join_components(years: i64, months: i64, days: i64) -> (r: String)
    ensures
        r@ == components_text(years as int, months as int, days as int),
{
    proof {
        reveal_strlit("year");
        reveal_strlit("month");
        reveal_strlit("day");
        reveal_strlit(", ");
        reveal_strlit("0 days");
        assert(", "@ =~= seq![',', ' ']);
        assert("0 days"@ =~= seq!['0', ' ', 'd', 'a', 'y', 's']);
    }
    let mut parts: Vec<String> = Vec::new();
    let ghost expect_y: Seq<Seq<char>> = if years != 0 {
        seq![unit_text(years as int, word_year())]
    } else {
        Seq::empty()
    };
    let ghost expect_m: Seq<Seq<char>> = if months != 0 {
        seq![unit_text(months as int, word_month())]
    } else {
        Seq::empty()
    };
    let ghost expect_d: Seq<Seq<char>> = if days != 0 {
        seq![unit_text(days as int, word_day())]
    } else {
        Seq::empty()
    };
    assert("year"@ =~= word_year());
    assert("month"@ =~= word_month());
    assert("day"@ =~= word_day());
    if let Some(p) = unit(years, "year") {
        let ghost before = parts@;
        parts.push(p);
        assert(texts_of(parts@) =~= texts_of(before).push(p@));
    }
    assert(texts_of(parts@) =~= expect_y);
    if let Some(p) = unit(months, "month") {
        let ghost before = parts@;
        parts.push(p);
        assert(texts_of(parts@) =~= texts_of(before).push(p@));
    }
    assert(texts_of(parts@) =~= expect_y + expect_m);
    if let Some(p) = unit(days, "day") {
        let ghost before = parts@;
        parts.push(p);
        assert(texts_of(parts@) =~= texts_of(before).push(p@));
    }
    assert(texts_of(parts@) =~= expect_y + expect_m + expect_d);
    assert(texts_of(parts@) =~= component_texts(years as int, months as int, days as int));
    if parts.len() == 0 {
        String::from_str("0 days")
    } else {
        join_strings(&parts, ", ")
    }
}

/// Computes the signed difference between `target` and `now`: a past target
/// reads `... ago`, a future one `in ...`, the same day `today`.
pub fn span_between(target: Date, now: Date) -> (r: Span)
    requires
        can_span(target@, now@),
    ensures
        is_span_between(target@, now@, r),
        r@ == span_model(target@, now@),
{
    proof {
        reveal_strlit("today");
        reveal_strlit(" ago");
        reveal_strlit("in ");
        assert("today"@ =~= seq!['t', 'o', 'd', 'a', 'y']);
        assert(" ago"@ =~= seq![' ', 'a', 'g', 'o']);
        assert("in "@ =~= seq!['i', 'n', ' ']);
    }
    if target.same_day(&now) {
        Span {
            years: 0,
            months: 0,
            days: 0,
            direction: Direction::Today,
            humanized: String::from_str("today"),
        }
    } else if target.is_before(&now) {
        let (years, months, days) = ymd_between(target, now);
        let mut humanized = join_components(years, months, days);
        humanized.append(" ago");
        proof {
            lemma_breakdown_is(target@, now@, years as int, months as int, days as int);
        }
        Span { years, months, days, direction: Direction::Past, humanized }
    } else {
        let (years, months, days) = ymd_between(now, target);
        let body = join_components(years, months, days);
        let mut humanized = String::from_str("in ");
        humanized.append(body.as_str());
        proof {
            lemma_breakdown_is(now@, target@, years as int, months as int, days as int);
        }
        Span { years, months, days, direction: Direction::Future, humanized }
    }
}


/// The direction seen from the other date.
pub open spec fn opposite(d: Direction) -> Direction {
    match d {
        Direction::Past => Direction::Future,
        Direction::Future => Direction::Past,
        Direction::Today => Direction::Today,
    }
}

/// The breakdown into years, months and days of a gap is unique.
pub proof fn law_breakdown_unique(
    earlier: Ymd,
    later: Ymd,
    y1: int,
    m1: int,
    d1: int,
    y2: int,
    m2: int,
    d2: int,
)
    requires
        is_ymd_breakdown(earlier, later, y1, m1, d1),
        is_ymd_breakdown(earlier, later, y2, m2, d2),
    ensures
        y1 == y2,
        m1 == m2,
        d1 == d2,
{
    law_calendar_gap_unique(earlier, later, 12 * y1 + m1, d1, 12 * y2 + m2, d2);
}

/// Measuring `a` against `b` and `b` against `a` gives the same years,
/// months and days, in opposite directions.
pub proof fn law_span_mirror(a: Ymd, b: Ymd, forward: Span, backward: Span)
    requires
        is_span_between(a, b, forward),
        is_span_between(b, a, backward),
    ensures
        forward.years == backward.years,
        forward.months == backward.months,
        forward.days == backward.days,
        forward.direction == opposite(backward.direction),
{
    if a != b {
        if precedes(a, b) {
            law_breakdown_unique(
                a,
                b,
                forward.years as int,
                forward.months as int,
                forward.days as int,
                backward.years as int,
                backward.months as int,
                backward.days as int,
            );
        } else {
            law_breakdown_unique(
                b,
                a,
                forward.years as int,
                forward.months as int,
                forward.days as int,
                backward.years as int,
                backward.months as int,
                backward.days as int,
            );
        }
    }
}

/// The span between two dates is a function of the two dates: any two
/// results for the same pair agree in every field.
pub proof fn law_span_determined(target: Ymd, now: Ymd, s1: Span, s2: Span)
    requires
        is_span_between(target, now, s1),
        is_span_between(target, now, s2),
    ensures
        s1.years == s2.years,
        s1.months == s2.months,
        s1.days == s2.days,
        s1.direction == s2.direction,
        s1.humanized@ == s2.humanized@,
{
    if target != now {
        if precedes(target, now) {
            law_breakdown_unique(
                target,
                now,
                s1.years as int,
                s1.months as int,
                s1.days as int,
                s2.years as int,
                s2.months as int,
                s2.days as int,
            );
        } else {
            law_breakdown_unique(
                now,
                target,
                s1.years as int,
                s1.months as int,
                s1.days as int,
                s2.years as int,
                s2.months as int,
                s2.days as int,
            );
        }
    }
}


/// Any breakdown of a gap is the one `breakdown` names.
pub proof fn lemma_breakdown_is(earlier: Ymd, later: Ymd, years: int, months: int, days: int)
    requires
        is_ymd_breakdown(earlier, later, years, months, days),
    ensures
        breakdown(earlier, later) == (years, months, days),
{
    let t = (years, months, days);
    assert(is_ymd_breakdown(earlier, later, t.0, t.1, t.2));
    let b = breakdown(earlier, later);
    law_breakdown_unique(earlier, later, years, months, days, b.0, b.1, b.2);
}

/// Whether `span_between(a, b)` can be computed for these dates.
pub fn can_measure(a: &Date, b: &Date) -> (r: bool)
    ensures
        r == can_span(a@, b@),
{
    let ay = a.year();
    let am = a.month();
    let by = b.year();
    let bm = b.month();
    a.same_day(b) || (!(ay == LAST_YEAR && am == 12) && !(by == LAST_YEAR && bm == 12))
}


/// A span points to the past exactly when the target precedes today.
pub proof fn lemma_past_iff_precedes(target: Ymd, now: Ymd)
    ensures
        (span_model(target, now).direction == Direction::Past) == precedes(target, now),
        (span_model(target, now).direction == Direction::Today) == (target == now),
{
}

/// A count reads singular only when it is exactly one: every other count
/// gets its unit with a plural `s`.
pub proof fn law_plural_unless_one(n: int, name: Seq<char>)
    ensures
        n != 1 ==> unit_text(n, name) == int_text(n) + seq![' '] + name + seq!['s'],
        unit_text(1, name) == seq!['1', ' '] + name,
{
    assert(decimal(1) == seq!['1']);
    assert(int_text(1) == seq!['1']);
    assert(unit_text(1, name) =~= seq!['1', ' '] + name);
}

/// A past gap of only days, two or more, reads `N days ago`.
pub proof fn law_days_only_sentence(target: Ymd, now: Ymd, n: int)
    requires
        precedes(target, now),
        breakdown(target, now) == (0int, 0int, n),
        n >= 2,
    ensures
        span_model(target, now).humanized == decimal(n as nat) + seq![' '] + word_day() + seq![
            's',
            ' ',
            'a',
            'g',
            'o',
        ],
{
    let parts = component_texts(0, 0, n);
    assert(parts =~= seq![unit_text(n, word_day())]);
    law_plural_unless_one(n, word_day());
    assert(span_model(target, now).humanized =~= decimal(n as nat) + seq![' '] + word_day()
        + seq!['s', ' ', 'a', 'g', 'o']);
}

} // verus!
