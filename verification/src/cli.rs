//! The shared command-line engine of the `since` and `until` front doors:
//! argument dispatch, anchor management and output formatting. Its decisions
//! are pure; the caller loads the anchor store before and saves it after.

use vstd::prelude::*;
use crate::anchors::{
    is_listing_of, date_view, error_text, measurable, nickname_key, normalize, resolve_token, token_date,
    token_measurable, AnchorStore, Error,
};
use crate::calendar::{as_ymd, iso_date_parse, iso_text, padded, pow10, precedes, Date, Ymd};
use crate::span::{lemma_past_iff_precedes, span_between, span_model, Direction, Span, SpanModel};
use crate::text::{decimal, digit_char, join_strings, join_texts, text_equal, texts_of, trim, trim_text};

verus! {

/// How a binary frames its results. `since` reports plainly in either
/// direction; `until` adds a gentle note when the date has already passed.
#[derive(Clone, Copy, Debug, PartialEq, Eq, Structural)]
pub enum Framing {
    Since,
    Until,
}

/// The gentle note `until` adds when a target date is already in the past.
pub const ALREADY_PASSED_NOTE: &'static str = "heads up — that date has already passed";

/// Per-binary configuration: the program name (used in help and hints) and
/// the framing.
#[derive(Clone, Copy, Debug)]
pub struct CliConfig {
    pub program: &'static str,
    pub framing: Framing,
}

impl CliConfig {
    pub fn since() -> (r: Self)
        ensures
            r.program@ == "since"@,
            r.framing == Framing::Since,
    {
        CliConfig { program: "since", framing: Framing::Since }
    }

    pub fn until() -> (r: Self)
        ensures
            r.program@ == "until"@,
            r.framing == Framing::Until,
    {
        CliConfig { program: "until", framing: Framing::Until }
    }
}

/// The result of a CLI run: what to print where, and the process exit code.
#[derive(Debug, PartialEq, Eq)]
pub struct CliOutput {
    pub stdout: Option<String>,
    pub stderr: Option<String>,
    pub code: i32,
}

/// Mathematical model of a CLI output.
pub struct OutputModel {
    pub stdout: Option<Seq<char>>,
    pub stderr: Option<Seq<char>>,
    pub code: int,
}

pub open spec fn text_view(t: Option<String>) -> Option<Seq<char>> {
    match t {
        Some(s) => Some(s@),
        None => None,
    }
}

impl View for CliOutput {
    type V = OutputModel;

    open spec fn view(&self) -> OutputModel {
        OutputModel {
            stdout: text_view(self.stdout),
            stderr: text_view(self.stderr),
            code: self.code as int,
        }
    }
}

pub open spec fn ok_model(msg: Seq<char>) -> OutputModel {
    OutputModel { stdout: Some(msg), stderr: None, code: 0 }
}

pub open spec fn fail_model(msg: Seq<char>, code: int) -> OutputModel {
    OutputModel { stdout: None, stderr: Some(msg), code }
}

impl Clone for CliOutput {
    fn clone(&self) -> (r: Self)
        ensures
            r@ == self@,
    {
        CliOutput { stdout: self.stdout.clone(), stderr: self.stderr.clone(), code: self.code }
    }
}

impl Default for CliOutput {
    fn default() -> (r: Self)
        ensures
            r@ == (OutputModel { stdout: None, stderr: None, code: 0 }),
    {
        CliOutput { stdout: None, stderr: None, code: 0 }
    }
}

impl CliOutput {
    /// Success: `msg` on stdout, exit code 0.
    pub fn ok(msg: String) -> (r: Self)
        ensures
            r@ == ok_model(msg@),
    {
        CliOutput { stdout: Some(msg), stderr: None, code: 0 }
    }

    /// Failure: `msg` on stderr with the given exit code.
    pub fn fail(msg: String, code: i32) -> (r: Self)
        ensures
            r@ == fail_model(msg@, code as int),
    {
        CliOutput { stdout: None, stderr: Some(msg), code }
    }
}

/// One measurement line: ISO tokens show just the date, nicknames show
/// `name (date)`; `until` appends a gentle note for past dates.
/// `token_is_date` tells whether the trimmed token reads as an ISO date.
pub open spec fn measurement_text(
    token: Seq<char>,
    token_is_date: bool,
    date: Ymd,
    span: SpanModel,
    framing: Framing,
) -> Seq<char> {
    let t = trim_text(token);
    let label = if token_is_date {
        iso_text(date)
    } else {
        t + " ("@ + iso_text(date) + ")"@
    };
    let line = label + ": "@ + span.humanized;
    if framing == Framing::Until && span.direction == Direction::Past {
        line + "  ("@ + ALREADY_PASSED_NOTE@ + ")"@
    } else {
        line
    }
}

/// The measurement line of a token, as chrono reads it.
pub open spec fn measurement_line(token: Seq<char>, date: Ymd, span: SpanModel, framing: Framing) -> Seq<char> {
    measurement_text(token, iso_date_parse(trim_text(token)) is Some, date, span, framing)
}

/// Formats one measurement line, given whether the trimmed token reads as
/// an ISO date.
pub fn measurement_line_for(
    token: &str,
    token_is_date: bool,
    date: Date,
    span: &Span,
    framing: Framing,
) -> (r: String)
    ensures
        r@ == measurement_text(token@, token_is_date, date@, span@, framing),
{
    let t = trim(token);
    let mut line = if token_is_date {
        date.iso_string()
    } else {
        let mut label = String::from_str(t);
        label.append(" (");
        label.append(date.iso_string().as_str());
        label.append(")");
        label
    };
    line.append(": ");
    line.append(span.humanized.as_str());
    if framing == Framing::Until && span.direction == Direction::Past {
        line.append("  (");
        line.append(ALREADY_PASSED_NOTE);
        line.append(")");
    }
    line
}

/// Formats one measurement line from a resolved token and its span.
pub fn format_measurement(token: &str, date: Date, span: &Span, framing: Framing) -> (r: String)
    ensures
        r@ == measurement_line(token@, date@, span@, framing),
{
    let token_is_date = Date::parse_iso(trim(token)).is_some();
    measurement_line_for(token, token_is_date, date, span, framing)
}

/// What a run produced: the output, and the store to save when the run
/// changed it.
pub struct CliRun {
    pub output: CliOutput,
    pub save: Option<AnchorStore>,
}

/// Mathematical model of a run: its output and the anchors to save.
pub struct RunModel {
    pub output: OutputModel,
    pub save: Option<Map<Seq<char>, Ymd>>,
}

impl View for CliRun {
    type V = RunModel;

    open spec fn view(&self) -> RunModel {
        RunModel {
            output: self.output@,
            save: match self.save {
                Some(s) => Some(s@),
                None => None,
            },
        }
    }
}

pub open spec fn only(output: OutputModel) -> RunModel {
    RunModel { output, save: None }
}

pub open spec fn arg_texts(args: Seq<String>) -> Seq<Seq<char>> {
    args.map_values(|a: String| a@)
}

pub open spec fn usage_text(p: Seq<char>) -> Seq<char> {
    "usage: "@ + p + " <YYYY-MM-DD | anchor-name>\n       "@ + p
        + " anchor add <name> <YYYY-MM-DD>\n       "@ + p + " anchor list\n       "@ + p
        + " anchor remove <name>"@
}

pub open spec fn anchor_usage_text(p: Seq<char>) -> Seq<char> {
    "usage: "@ + p + " anchor add|list|remove ..."@
}

pub open spec fn add_usage_text(p: Seq<char>) -> Seq<char> {
    "usage: "@ + p + " anchor add <name> <YYYY-MM-DD>"@
}

pub open spec fn unknown_subcommand_text(other: Seq<char>, p: Seq<char>) -> Seq<char> {
    "unknown anchor subcommand: "@ + other + "\n  try: "@ + p + " anchor add|list|remove"@
}

pub open spec fn empty_list_text(p: Seq<char>) -> Seq<char> {
    "no anchors yet — add one with `"@ + p + " anchor add <name> <YYYY-MM-DD>`"@
}

pub open spec fn listing_line(e: (Seq<char>, Ymd)) -> Seq<char> {
    e.0 + " -> "@ + iso_text(e.1)
}

/// One `name -> date` line per anchor, in the order given.
pub open spec fn listing_text(listing: Seq<(Seq<char>, Ymd)>) -> Seq<char> {
    join_texts(listing_lines(listing), "\n"@)
}

pub open spec fn listing_lines(listing: Seq<(Seq<char>, Ymd)>) -> Seq<Seq<char>> {
    listing.map_values(|e: (Seq<char>, Ymd)| listing_line(e))
}

/// What measuring a single token gives.
pub open spec fn token_outcome(
    token: Seq<char>,
    framing: Framing,
    store: Result<AnchorStore, Error>,
    now: Ymd,
) -> RunModel {
    match store {
        Err(e) => only(fail_model(error_text(e), 1)),
        Ok(s) => match token_date(token, s@) {
            Some(d) => only(ok_model(measurement_line(token, d, span_model(d, now), framing))),
            None => only(fail_model("unknown date or anchor: "@ + token, 1)),
        },
    }
}

/// What `anchor add <name> <date>` gives (`rest` follows `add`).
pub open spec fn add_outcome(rest: Seq<Seq<char>>, p: Seq<char>, store: Result<AnchorStore, Error>) -> RunModel {
    if rest.len() != 2 {
        only(fail_model(add_usage_text(p), 2))
    } else {
        let date = match iso_date_parse(trim_text(rest[1])) {
            Some(t) => Some(as_ymd(t)),
            None => None,
        };
        add_parsed_outcome(rest[0], rest[1], date, store)
    }
}

/// What `anchor list` gives.
pub open spec fn list_outcome(p: Seq<char>, store: Result<AnchorStore, Error>) -> RunModel {
    match store {
        Err(e) => only(fail_model(error_text(e), 1)),
        Ok(s) => if s@ == Map::<Seq<char>, Ymd>::empty() {
            only(ok_model(empty_list_text(p)))
        } else {
            only(ok_model(listing_text(s.listing())))
        },
    }
}

/// What `anchor remove <name>` gives (`rest` follows `remove`).
pub open spec fn remove_outcome(rest: Seq<Seq<char>>, store: Result<AnchorStore, Error>) -> RunModel {
    if rest.len() != 1 {
        only(fail_model("usage: anchor remove <name>"@, 2))
    } else {
        match store {
            Err(e) => only(fail_model(error_text(e), 1)),
            Ok(s) => {
                let k = nickname_key(rest[0]);
                if s@.contains_key(k) {
                    RunModel {
                        output: ok_model(
                            "removed anchor '"@ + k + "' (was "@ + iso_text(s@[k]) + ")"@,
                        ),
                        save: Some(s@.remove(k)),
                    }
                } else {
                    only(ok_model("no anchor named '"@ + k + "' — nothing to remove"@))
                }
            },
        }
    }
}

/// What `anchor ...` gives (`rest` follows `anchor`).
pub open spec fn anchor_outcome(rest: Seq<Seq<char>>, p: Seq<char>, store: Result<AnchorStore, Error>) -> RunModel {
    if rest.len() == 0 {
        only(fail_model(anchor_usage_text(p), 2))
    } else if rest[0] == "add"@ {
        add_outcome(rest.drop_first(), p, store)
    } else if rest[0] == "list"@ {
        list_outcome(p, store)
    } else if rest[0] == "remove"@ || rest[0] == "rm"@ {
        remove_outcome(rest.drop_first(), store)
    } else {
        only(fail_model(unknown_subcommand_text(rest[0], p), 2))
    }
}

/// What a whole run gives: the first argument is the branch point, the
/// literal word `anchor` means store management, anything else is a token.
pub open spec fn run_outcome(
    args: Seq<Seq<char>>,
    p: Seq<char>,
    framing: Framing,
    store: Result<AnchorStore, Error>,
    now: Ymd,
) -> RunModel {
    if args.len() == 0 {
        only(fail_model(usage_text(p), 2))
    } else if args[0] == "anchor"@ {
        anchor_outcome(args.drop_first(), p, store)
    } else {
        token_outcome(args[0], framing, store, now)
    }
}

/// Whether the token a run measures resolves to a date that can be measured.
pub open spec fn run_measurable(args: Seq<Seq<char>>, store: Result<AnchorStore, Error>, now: Ymd) -> bool {
    (args.len() > 0 && args[0] != "anchor"@) ==> (store matches Ok(s) ==> measurable(
        args[0],
        s@,
        now,
    ))
}

fn run_token(token: &str, cfg: &CliConfig, store: Result<AnchorStore, Error>, now: Date) -> (r: CliRun)
    requires
        store matches Ok(s) ==> measurable(token@, s@, now@),
    ensures
        r@ == token_outcome(token@, cfg.framing, store, now@),
{
    let store = match store {
        Ok(s) => s,
        Err(e) => return CliRun { output: CliOutput::fail(e.message(), 1), save: None },
    };
    match resolve_token(token, &store) {
        Ok(date) => {
            let span = span_between(date, now);
            CliRun {
                output: CliOutput::ok(format_measurement(token, date, &span, cfg.framing)),
                save: None,
            }
        },
        Err(e) => CliRun { output: CliOutput::fail(e.message(), 1), save: None },
    }
}

/// What `anchor add <name> <date>` gives once the trimmed date text has been
/// read as an ISO date (`date`).
pub open spec fn add_parsed_outcome(
    name: Seq<char>,
    date_text: Seq<char>,
    date: Option<Ymd>,
    store: Result<AnchorStore, Error>,
) -> RunModel {
    match date {
        None => only(fail_model("not a valid ISO date (YYYY-MM-DD): "@ + date_text, 1)),
        Some(d) => match store {
            Err(e) => only(fail_model(error_text(e), 1)),
            Ok(s) => RunModel {
                output: ok_model("added anchor '"@ + nickname_key(name) + "' -> "@ + iso_text(d)),
                save: Some(s@.insert(nickname_key(name), d)),
            },
        },
    }
}

/// Finishes `anchor add` once the date text has been read: a bad date is
/// refused before the store is touched.
pub fn anchor_add_parsed(
    name: &str,
    date_text: &str,
    date: Option<Date>,
    store: Result<AnchorStore, Error>,
) -> (r: CliRun)
    ensures
        r@ == add_parsed_outcome(name@, date_text@, date_view(date), store),
{
    let date = match date {
        Some(d) => d,
        None => {
            let mut msg = String::from_str("not a valid ISO date (YYYY-MM-DD): ");
            msg.append(date_text);
            return CliRun { output: CliOutput::fail(msg, 1), save: None };
        },
    };
    let mut store = match store {
        Ok(s) => s,
        Err(e) => return CliRun { output: CliOutput::fail(e.message(), 1), save: None },
    };
    store.add(name, date);
    let mut msg = String::from_str("added anchor '");
    msg.append(normalize(name).as_str());
    msg.append("' -> ");
    msg.append(date.iso_string().as_str());
    CliRun { output: CliOutput::ok(msg), save: Some(store) }
}

fn anchor_add(args: &[String], cfg: &CliConfig, store: Result<AnchorStore, Error>) -> (r: CliRun)
    ensures
        r@ == add_outcome(arg_texts(args@), cfg.program@, store),
{
    if args.len() != 2 {
        let mut msg = String::from_str("usage: ");
        msg.append(cfg.program);
        msg.append(" anchor add <name> <YYYY-MM-DD>");
        return CliRun { output: CliOutput::fail(msg, 2), save: None };
    }
    let name = &args[0];
    let date_str = &args[1];
    assert(arg_texts(args@)[0] == name@ && arg_texts(args@)[1] == date_str@);
    let date = Date::parse_iso(trim(date_str.as_str()));
    anchor_add_parsed(name.as_str(), date_str.as_str(), date, store)
}

/// `anchor list`: every anchor as `name -> date`, one per line, in
/// ascending nickname order.
pub fn anchor_list(store: Result<AnchorStore, Error>, cfg: &CliConfig) -> (r: CliRun)
    ensures
        r@ == list_outcome(cfg.program@, store),
{
    let store = match store {
        Ok(s) => s,
        Err(e) => return CliRun { output: CliOutput::fail(e.message(), 1), save: None },
    };
    if store.is_empty() {
        let mut msg = String::from_str("no anchors yet — add one with `");
        msg.append(cfg.program);
        msg.append(" anchor add <name> <YYYY-MM-DD>`");
        return CliRun { output: CliOutput::ok(msg), save: None };
    }
    let entries = store.list();
    let ghost listing = store.listing();
    let ghost lines = listing_lines(listing);
    let mut texts: Vec<String> = Vec::new();
    let mut i: usize = 0;
    while i < entries.len()
        invariant
            i <= entries.len(),
            crate::anchors::entries_listing(entries@) == listing,
            lines == listing_lines(listing),
            texts_of(texts@) == lines.take(i as int),
        decreases entries.len() - i,
    {
        let mut line = String::from_str(entries[i].0.as_str());
        line.append(" -> ");
        line.append(entries[i].1.iso_string().as_str());
        let ghost before = texts@;
        texts.push(line);
        proof {
            assert(listing[i as int] == (entries@[i as int].0@, entries@[i as int].1@));
            assert(texts_of(texts@) =~= texts_of(before).push(line@));
            assert(lines.take(i + 1) =~= lines.take(i as int).push(lines[i as int]));
        }
        i = i + 1;
    }
    assert(lines.take(entries.len() as int) =~= lines);
    let msg = join_strings(&texts, "\n");
    CliRun { output: CliOutput::ok(msg), save: None }
}

/// `anchor remove <name>`: a missing anchor is noted gently, not an error.
pub fn anchor_remove(args: &[String], store: Result<AnchorStore, Error>) -> (r: CliRun)
    ensures
        r@ == remove_outcome(arg_texts(args@), store),
{
    if args.len() != 1 {
        return CliRun {
            output: CliOutput::fail(String::from_str("usage: anchor remove <name>"), 2),
            save: None,
        };
    }
    let name = &args[0];
    assert(arg_texts(args@)[0] == name@);
    let mut store = match store {
        Ok(s) => s,
        Err(e) => return CliRun { output: CliOutput::fail(e.message(), 1), save: None },
    };
    let key = normalize(name.as_str());
    match store.remove(name.as_str()) {
        Some(date) => {
            let mut msg = String::from_str("removed anchor '");
            msg.append(key.as_str());
            msg.append("' (was ");
            msg.append(date.iso_string().as_str());
            msg.append(")");
            CliRun { output: CliOutput::ok(msg), save: Some(store) }
        },
        None => {
            let mut msg = String::from_str("no anchor named '");
            msg.append(key.as_str());
            msg.append("' — nothing to remove");
            CliRun { output: CliOutput::ok(msg), save: None }
        },
    }
}

/// Handles the `anchor` subcommands: add, list, remove.
pub fn run_anchor(args: &[String], cfg: &CliConfig, store: Result<AnchorStore, Error>) -> (r: CliRun)
    ensures
        r@ == anchor_outcome(arg_texts(args@), cfg.program@, store),
{
    if args.len() == 0 {
        let mut msg = String::from_str("usage: ");
        msg.append(cfg.program);
        msg.append(" anchor add|list|remove ...");
        return CliRun { output: CliOutput::fail(msg, 2), save: None };
    }
    let first = args[0].as_str();
    assert(arg_texts(args@)[0] == first@);
    let rest = vstd::slice::slice_subrange(args, 1, args.len());
    assert(arg_texts(rest@) =~= arg_texts(args@).drop_first());
    if text_equal(first, "add") {
        anchor_add(rest, cfg, store)
    } else if text_equal(first, "list") {
        anchor_list(store, cfg)
    } else if text_equal(first, "remove") || text_equal(first, "rm") {
        anchor_remove(rest, store)
    } else {
        let mut msg = String::from_str("unknown anchor subcommand: ");
        msg.append(first);
        msg.append("\n  try: ");
        msg.append(cfg.program);
        msg.append(" anchor add|list|remove");
        CliRun { output: CliOutput::fail(msg, 2), save: None }
    }
}

/// Top-level dispatch. `store` is the anchor store as loading it turned out;
/// a run that changes the store hands it back in `save`.
pub fn run(args: &[String], cfg: &CliConfig, store: Result<AnchorStore, Error>, now: Date) -> (r: CliRun)
    requires
        run_measurable(arg_texts(args@), store, now@),
    ensures
        r@ == run_outcome(arg_texts(args@), cfg.program@, cfg.framing, store, now@),
{
    if args.len() == 0 {
        let mut msg = String::from_str("usage: ");
        msg.append(cfg.program);
        msg.append(" <YYYY-MM-DD | anchor-name>\n       ");
        msg.append(cfg.program);
        msg.append(" anchor add <name> <YYYY-MM-DD>\n       ");
        msg.append(cfg.program);
        msg.append(" anchor list\n       ");
        msg.append(cfg.program);
        msg.append(" anchor remove <name>");
        return CliRun { output: CliOutput::fail(msg, 2), save: None };
    }
    let first = args[0].as_str();
    assert(arg_texts(args@)[0] == first@);
    if text_equal(first, "anchor") {
        let rest = vstd::slice::slice_subrange(args, 1, args.len());
        assert(arg_texts(rest@) =~= arg_texts(args@).drop_first());
        run_anchor(rest, cfg, store)
    } else {
        run_token(first, cfg, store, now)
    }
}

/// Whether `run(args, _, store, now)` may be called: the token it would
/// measure resolves to a date that can be measured against `now`.
pub fn run_in_range(args: &[String], store: &Result<AnchorStore, Error>, now: Date) -> (r: bool)
    ensures
        r == run_measurable(arg_texts(args@), *store, now@),
{
    if args.len() == 0 {
        return true;
    }
    let first = args[0].as_str();
    assert(arg_texts(args@)[0] == first@);
    if text_equal(first, "anchor") {
        return true;
    }
    match store {
        Ok(s) => token_measurable(first, s, now),
        Err(_) => true,
    }
}

/// `run`, or `None` when the token it would measure resolves to a date whose
/// span cannot be computed.
pub fn try_run(args: &[String], cfg: &CliConfig, store: Result<AnchorStore, Error>, now: Date) -> (r: Option<CliRun>)
    ensures
        r is None <==> !run_measurable(arg_texts(args@), store, now@),
        r matches Some(x) ==> x@ == run_outcome(arg_texts(args@), cfg.program@, cfg.framing, store, now@),
{
    if run_in_range(args, &store, now) {
        Some(run(args, cfg, store, now))
    } else {
        None
    }
}

/// The output once the store a run handed back has been saved: a failed
/// save replaces it with the error.
pub fn after_save(output: CliOutput, saved: Result<(), Error>) -> (r: CliOutput)
    ensures
        saved is Ok ==> r@ == output@,
        saved matches Err(e) ==> r@ == fail_model(error_text(e), 1),
{
    match saved {
        Ok(()) => output,
        Err(e) => CliOutput::fail(e.message(), 1),
    }
}


/// The gentle note as `until` appends it to a line.
pub open spec fn passed_note_suffix() -> Seq<char> {
    "  ("@ + ALREADY_PASSED_NOTE@ + ")"@
}

/// Under `until`, a measurement line is the `since` line with the
/// already-passed note appended exactly when the span points to the past,
/// whatever the token is; otherwise the two framings print the same line,
/// and the line ends with the span's sentence.
pub proof fn law_until_line_notes_past(
    token: Seq<char>,
    token_is_date: bool,
    date: Ymd,
    span: SpanModel,
)
    ensures
        span.direction == Direction::Past ==> measurement_text(
            token,
            token_is_date,
            date,
            span,
            Framing::Until,
        ) == measurement_text(token, token_is_date, date, span, Framing::Since)
            + passed_note_suffix(),
        span.direction != Direction::Past ==> measurement_text(
            token,
            token_is_date,
            date,
            span,
            Framing::Until,
        ) == measurement_text(token, token_is_date, date, span, Framing::Since),
        exists|label: Seq<char>|
            measurement_text(token, token_is_date, date, span, Framing::Since) == label + ": "@
                + span.humanized,
{
    let t = trim_text(token);
    let label = if token_is_date {
        iso_text(date)
    } else {
        t + " ("@ + iso_text(date) + ")"@
    };
    assert(measurement_text(token, token_is_date, date, span, Framing::Since) == label + ": "@
        + span.humanized);
}

/// Measuring a token under `until` prints the `since` line plus the
/// already-passed note exactly when the token resolves (as an ISO date or as
/// a nickname) to a date before today, and the same line otherwise.
pub proof fn law_until_run_notes_past(token: Seq<char>, store: AnchorStore, now: Ymd)
    ensures
        token_date(token, store@) matches Some(d) ==> {
            let until = token_outcome(token, Framing::Until, Ok(store), now).output;
            let since = token_outcome(token, Framing::Since, Ok(store), now).output;
            &&& since.stdout is Some
            &&& until.stdout is Some
            &&& until.code == 0
            &&& since.code == 0
            &&& precedes(d, now) ==> until.stdout->0 == since.stdout->0 + passed_note_suffix()
            &&& !precedes(d, now) ==> until.stdout->0 == since.stdout->0
        },
{
    if let Some(d) = token_date(token, store@) {
        let s = span_model(d, now);
        lemma_past_iff_precedes(d, now);
        law_until_line_notes_past(token, iso_date_parse(trim_text(token)) is Some, d, s);
    }
}


/// `anchor remove <name>` hands back a store without the normalized name and
/// with every other nickname as it was, when the name was stored; when it was
/// not, nothing is saved. Either way the run succeeds.
pub proof fn law_remove_forgets(name: Seq<char>, store: AnchorStore)
    ensures
        remove_outcome(seq![name], Ok(store)).output.code == 0,
        store@.contains_key(nickname_key(name)) ==> (remove_outcome(seq![name], Ok(store)).save matches Some(m) && {
            &&& !m.contains_key(nickname_key(name))
            &&& forall|k: Seq<char>|
                k != nickname_key(name) ==> (#[trigger] m.contains_key(k) == store@.contains_key(
                    k,
                ) && (m.contains_key(k) ==> m[k] == store@[k]))
        }),
        !store@.contains_key(nickname_key(name)) ==> remove_outcome(seq![name], Ok(store)).save is None,
{
    assert(seq![name][0] == name);
}

/// A token that is neither an ISO date nor a stored nickname fails with exit
/// code 1 and an error naming the token, under either framing.
pub proof fn law_unknown_token_fails(token: Seq<char>, framing: Framing, store: AnchorStore, now: Ymd)
    requires
        token_date(token, store@) is None,
    ensures
        token_outcome(token, framing, Ok(store), now).output.code == 1,
        token_outcome(token, framing, Ok(store), now).output.stdout is None,
        token_outcome(token, framing, Ok(store), now).output.stderr == Some(
            "unknown date or anchor: "@ + token,
        ),
        token_outcome(token, framing, Ok(store), now).save is None,
{
}

/// A successful `anchor add` hands back a store that maps the normalized
/// name to the given date, whatever the store held under that name before,
/// and leaves every other nickname as it was.
pub proof fn law_add_saves_the_date(name: Seq<char>, date_text: Seq<char>, d: Ymd, store: AnchorStore)
    ensures
        add_parsed_outcome(name, date_text, Some(d), Ok(store)).output.code == 0,
        add_parsed_outcome(name, date_text, Some(d), Ok(store)).save matches Some(m) && {
            &&& m.contains_key(nickname_key(name))
            &&& m[nickname_key(name)] == d
            &&& forall|k: Seq<char>|
                k != nickname_key(name) ==> (#[trigger] m.contains_key(k) == store@.contains_key(
                    k,
                ) && (m.contains_key(k) ==> m[k] == store@[k]))
        },
{
}

/// `since anchor add <name> <date>` with a date that reads as ISO saves that
/// date under the normalized name, whatever the store held before.
pub proof fn law_run_add_saves_the_date(
    args: Seq<Seq<char>>,
    p: Seq<char>,
    framing: Framing,
    store: AnchorStore,
    now: Ymd,
)
    requires
        args.len() == 4,
        args[0] == "anchor"@,
        args[1] == "add"@,
        iso_date_parse(trim_text(args[3])) is Some,
    ensures
        run_outcome(args, p, framing, Ok(store), now).save matches Some(m) && m.contains_key(
            nickname_key(args[2]),
        ) && m[nickname_key(args[2])] == as_ymd(iso_date_parse(trim_text(args[3]))->0),
{
    reveal_strlit("anchor");
    reveal_strlit("add");
    assert(args.drop_first()[0] == "add"@);
    assert(args.drop_first().drop_first() =~= seq![args[2], args[3]]);
    law_add_saves_the_date(
        args[2],
        args[3],
        as_ymd(iso_date_parse(trim_text(args[3]))->0),
        store,
    );
}

proof fn lemma_decimal_ends_with_digit(n: nat)
    ensures
        decimal(n).len() > 0,
        decimal(n).last() == digit_char(n as int % 10),
    decreases n,
{
    if n >= 10 {
        lemma_decimal_ends_with_digit(n / 10);
    }
}

proof fn lemma_padded_ends_with_digit(n: nat, width: nat)
    ensures
        padded(n, width).len() > 0,
        padded(n, width).last() == digit_char(n as int % 10),
    decreases width,
{
    lemma_decimal_ends_with_digit(n);
    if width > 1 && n < pow10(width - 1) {
        lemma_padded_ends_with_digit(n, (width - 1) as nat);
    }
}

proof fn lemma_join_ends_with_last(parts: Seq<Seq<char>>, sep: Seq<char>)
    requires
        parts.len() > 0,
        parts.last().len() > 0,
    ensures
        join_texts(parts, sep).len() > 0,
        join_texts(parts, sep).last() == parts.last().last(),
{
}

/// `anchor list` prints the friendly `no anchors yet` message exactly when
/// the store is empty; otherwise it prints one `name -> date` line per
/// anchor, joined by newlines, covering every stored nickname.
pub proof fn law_list_reports_every_anchor(p: Seq<char>, store: AnchorStore)
    requires
        is_listing_of(store.listing(), store@),
    ensures
        list_outcome(p, Ok(store)).output.code == 0,
        list_outcome(p, Ok(store)).output.stdout is Some,
        (list_outcome(p, Ok(store)).output.stdout->0 == empty_list_text(p)) == (store@
            == Map::<Seq<char>, Ymd>::empty()),
        store@ != Map::<Seq<char>, Ymd>::empty() ==> exists|lines: Seq<Seq<char>>|
            {
                &&& list_outcome(p, Ok(store)).output.stdout->0 == join_texts(lines, "\n"@)
                &&& forall|k: Seq<char>| #[trigger]
                    store@.contains_key(k) ==> exists|i: int|
                        0 <= i < lines.len() && lines[i] == k + " -> "@ + iso_text(store@[k])
            },
{
    let l = store.listing();
    if store@ != Map::<Seq<char>, Ymd>::empty() {
        assert(exists|k: Seq<char>| store@.contains_key(k)) by {
            if !(exists|k: Seq<char>| store@.contains_key(k)) {
                assert(store@ =~= Map::<Seq<char>, Ymd>::empty());
            }
        }
        let k0 = choose|k: Seq<char>| store@.contains_key(k);
        assert(l.len() > 0);
        let lines = listing_lines(l);
        assert forall|k: Seq<char>| #[trigger] store@.contains_key(k) implies exists|i: int|
            0 <= i < lines.len() && lines[i] == k + " -> "@ + iso_text(store@[k]) by {
            let i = choose|i: int| 0 <= i < l.len() && #[trigger] l[i].0 == k;
            assert(lines[i] == listing_line(l[i]));
        }
        let last = l.last();
        lemma_padded_ends_with_digit(last.1.day as nat, 2);
        assert(iso_text(last.1).last() == padded(last.1.day as nat, 2).last());
        assert(lines.last() == listing_line(last));
        assert(listing_line(last).last() == iso_text(last.1).last());
        lemma_join_ends_with_last(lines, "\n"@);
        reveal_strlit(" anchor add <name> <YYYY-MM-DD>`");
        let tail = " anchor add <name> <YYYY-MM-DD>`"@;
        assert(empty_list_text(p).last() == tail.last());
        assert(tail.last() == '`');
        let out = listing_text(l);
        assert(out.last() == digit_char((last.1.day as nat) as int % 10));
        assert(out != empty_list_text(p));
    }
}

} // verus!
