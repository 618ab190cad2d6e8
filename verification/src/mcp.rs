//! The decisions behind the MCP tools `since`, `until` and `list_anchors`:
//! what each tool answers, given the anchor store and today's date.

use vstd::prelude::*;
use crate::anchors::{measurable, measure, token_date, token_measurable, AnchorStore};
use crate::calendar::{iso_text, precedes, Date, Ymd};
use crate::cli::{Framing, ALREADY_PASSED_NOTE};
use crate::span::{direction_text, lemma_past_iff_precedes, span_model, Direction};

verus! {

/// A token to resolve: either an ISO date or an anchor nickname.
pub struct TokenRequest {
    pub token: String,
}

/// The structured result of a `since` / `until` measurement: the numbers
/// and the ready-made sentence.
pub struct SpanResult {
    /// The token exactly as supplied.
    pub token: String,
    /// The date it resolved to, `YYYY-MM-DD`.
    pub date: String,
    pub years: i64,
    pub months: i64,
    pub days: i64,
    /// `past`, `future` or `today`.
    pub direction: String,
    pub humanized: String,
    /// Present only for `until` when the date has already passed.
    pub note: Option<String>,
}

/// The current anchors: nickname and date text, in ascending nickname order.
pub struct AnchorsResult {
    pub anchors: Vec<(String, String)>,
    pub count: usize,
}

/// `res` reports `token`, resolved to `d`, measured against `now`.
pub open spec fn is_span_result(res: SpanResult, token: Seq<char>, d: Ymd, now: Ymd, framing: Framing) -> bool {
    let s = span_model(d, now);
    &&& res.token@ == token
    &&& res.date@ == iso_text(d)
    &&& res.years == s.years
    &&& res.months == s.months
    &&& res.days == s.days
    &&& res.direction@ == direction_text(s.direction)
    &&& res.humanized@ == s.humanized
    &&& if framing == Framing::Until && s.direction == Direction::Past {
        res.note matches Some(n) && n@ == ALREADY_PASSED_NOTE@
    } else {
        res.note is None
    }
}

/// `r` is the answer of a measuring tool for `token`.
pub open spec fn is_tool_answer(
    r: Result<SpanResult, String>,
    token: Seq<char>,
    store: Map<Seq<char>, Ymd>,
    now: Ymd,
    framing: Framing,
) -> bool {
    match r {
        Ok(res) => token_date(token, store) matches Some(d) && is_span_result(
            res,
            token,
            d,
            now,
            framing,
        ),
        Err(m) => token_date(token, store) is None && m@ == "unknown date or anchor: "@ + token,
    }
}

/// Resolves and measures a token, projecting the span into the structured
/// result and attaching the gentle note for past dates under `until`.
pub fn measure_token(token: &str, framing: Framing, store: &AnchorStore, now: Date) -> (r: Result<
    SpanResult,
    String,
>)
    requires
        measurable(token@, store@, now@),
    ensures
        is_tool_answer(r, token@, store@, now@, framing),
{
    let (date, span) = match measure(token, store, now) {
        Ok(m) => m,
        Err(e) => return Err(e.message()),
    };
    let note = if framing == Framing::Until && span.direction == Direction::Past {
        Some(String::from_str(ALREADY_PASSED_NOTE))
    } else {
        None
    };
    Ok(
        SpanResult {
            token: String::from_str(token),
            date: date.iso_string(),
            years: span.years,
            months: span.months,
            days: span.days,
            direction: String::from_str(span.direction.as_str()),
            humanized: span.humanized,
            note,
        },
    )
}

/// `measure_token`, or `None` when the resolved date cannot be measured
/// against `now`.
pub fn try_measure_token(token: &str, framing: Framing, store: &AnchorStore, now: Date) -> (r:
    Option<Result<SpanResult, String>>)
    ensures
        r is None <==> !measurable(token@, store@, now@),
        r matches Some(a) ==> is_tool_answer(a, token@, store@, now@, framing),
{
    if token_measurable(token, store, now) {
        Some(measure_token(token, framing, store, now))
    } else {
        None
    }
}

pub open spec fn anchor_texts(anchors: Seq<(String, String)>) -> Seq<(Seq<char>, Seq<char>)> {
    anchors.map_values(|a: (String, String)| (a.0@, a.1@))
}

/// The store as nickname and date text pairs, in ascending nickname order.
pub fn load_anchors(store: &AnchorStore) -> (r: AnchorsResult)
    ensures
        anchor_texts(r.anchors@) == store.listing().map_values(
            |e: (Seq<char>, Ymd)| (e.0, iso_text(e.1)),
        ),
        r.count == r.anchors@.len(),
{
    let entries = store.list();
    let ghost want = store.listing().map_values(|e: (Seq<char>, Ymd)| (e.0, iso_text(e.1)));
    let mut anchors: Vec<(String, String)> = Vec::new();
    let mut i: usize = 0;
    while i < entries.len()
        invariant
            i <= entries.len(),
            crate::anchors::entries_listing(entries@) == store.listing(),
            want == store.listing().map_values(|e: (Seq<char>, Ymd)| (e.0, iso_text(e.1))),
            anchor_texts(anchors@) == want.take(i as int),
        decreases entries.len() - i,
    {
        let pair = (String::from_str(entries[i].0.as_str()), entries[i].1.iso_string());
        let ghost before = anchors@;
        anchors.push(pair);
        proof {
            assert(store.listing()[i as int] == (entries@[i as int].0@, entries@[i as int].1@));
            assert(anchor_texts(anchors@) =~= anchor_texts(before).push((pair.0@, pair.1@)));
            assert(want.take(i + 1) =~= want.take(i as int).push(want[i as int]));
        }
        i = i + 1;
    }
    assert(want.take(entries.len() as int) =~= want);
    let count = anchors.len();
    AnchorsResult { anchors, count }
}


/// The `until` tool attaches the already-passed note exactly when the token
/// resolves (as an ISO date or as a nickname) to a date before today; the
/// `since` tool never does.
pub proof fn law_tool_note_iff_past(
    r: Result<SpanResult, String>,
    token: Seq<char>,
    store: Map<Seq<char>, Ymd>,
    now: Ymd,
    framing: Framing,
)
    requires
        is_tool_answer(r, token, store, now, framing),
        r is Ok,
    ensures
        token_date(token, store) is Some,
        framing == Framing::Since ==> r->Ok_0.note is None,
        framing == Framing::Until ==> (r->Ok_0.note is Some <==> precedes(
            token_date(token, store)->0,
            now,
        )),
        r->Ok_0.note matches Some(n) ==> n@ == ALREADY_PASSED_NOTE@,
{
    lemma_past_iff_precedes(token_date(token, store)->0, now);
}

} // verus!
