use since_until::cli::{after_save, run, try_run, CliConfig, CliOutput, CliRun, Framing, ALREADY_PASSED_NOTE};
use since_until::{AnchorStore, Date, Error};

fn d(y: i32, m: u32, day: u32) -> Date {
    Date::from_ymd_opt(y, m, day).unwrap()
}

fn argv(parts: &[&str]) -> Vec<String> {
    parts.iter().map(|s| s.to_string()).collect()
}

/// A store as loading a file that does not exist yet gives it.
fn fresh() -> Result<AnchorStore, Error> {
    Ok(AnchorStore::new())
}

/// The store a run handed back to be saved, as reloading it gives it.
fn saved(r: CliRun) -> Result<AnchorStore, Error> {
    Ok(r.save.expect("the run changed the store"))
}

#[test]
fn no_args_is_usage_error() {
    let out = run(&[], &CliConfig::since(), fresh(), d(2026, 5, 31)).output;
    assert_eq!(out.code, 2);
    assert!(out.stderr.unwrap().contains("usage:"));
}

#[test]
fn token_branch_measures_iso_date() {
    let out = run(&argv(&["2020-03-01"]), &CliConfig::since(), fresh(), d(2026, 5, 31)).output;
    assert_eq!(out.code, 0);
    assert_eq!(out.stdout.unwrap(), "2020-03-01: 6 years, 2 months, 30 days ago");
}

#[test]
fn unknown_token_errors_nonzero() {
    let out = run(&argv(&["nope"]), &CliConfig::since(), fresh(), d(2026, 5, 31)).output;
    assert_eq!(out.code, 1);
    assert_eq!(out.stderr.unwrap(), "unknown date or anchor: nope");
}

#[test]
fn anchor_branch_add_then_resolve_roundtrip() {
    let cfg = CliConfig::since();

    let add = run(&argv(&["anchor", "add", "covid", "2020-03-01"]), &cfg, fresh(), d(2026, 5, 31));
    assert_eq!(add.output.code, 0);
    assert!(add.output.stdout.clone().unwrap().contains("added anchor 'covid' -> 2020-03-01"));

    // Now the nickname resolves through the token branch.
    let measure = run(&argv(&["covid"]), &cfg, saved(add), d(2026, 5, 31)).output;
    assert_eq!(measure.code, 0);
    assert_eq!(measure.stdout.unwrap(), "covid (2020-03-01): 6 years, 2 months, 30 days ago");
}

#[test]
fn anchor_add_rejects_bad_date() {
    let out = run(&argv(&["anchor", "add", "oops", "March 1st"]), &CliConfig::since(), fresh(), d(2026, 5, 31));
    assert_eq!(out.output.code, 1);
    assert!(out.output.stderr.unwrap().contains("not a valid ISO date"));
    // Nothing should have been written.
    assert!(out.save.is_none());
}

#[test]
fn anchor_remove_missing_is_gentle() {
    let out = run(&argv(&["anchor", "remove", "ghost"]), &CliConfig::since(), fresh(), d(2026, 5, 31)).output;
    assert_eq!(out.code, 0); // gentle: not a hard error
    assert!(out.stdout.unwrap().contains("no anchor named 'ghost'"));
}

#[test]
fn anchor_list_friendly_when_empty() {
    let out = run(&argv(&["anchor", "list"]), &CliConfig::since(), fresh(), d(2026, 5, 31)).output;
    assert_eq!(out.code, 0);
    assert!(out.stdout.unwrap().contains("no anchors yet"));
}

#[test]
fn anchor_list_sorted() {
    let cfg = CliConfig::since();
    let first = run(&argv(&["anchor", "add", "covid", "2020-03-01"]), &cfg, fresh(), d(2026, 5, 31));
    let second = run(&argv(&["anchor", "add", "bella-birthday", "2019-07-14"]), &cfg, saved(first), d(2026, 5, 31));
    let out = run(&argv(&["anchor", "list"]), &cfg, saved(second), d(2026, 5, 31)).output;
    assert_eq!(out.stdout.unwrap(), "bella-birthday -> 2019-07-14\ncovid -> 2020-03-01");
}

#[test]
fn until_framing_notes_past_dates() {
    let out = run(&argv(&["2020-03-01"]), &CliConfig::until(), fresh(), d(2026, 5, 31)).output;
    assert_eq!(out.code, 0);
    assert!(out.stdout.unwrap().contains("already passed"));
}

#[test]
fn until_framing_silent_on_future_dates() {
    let out = run(&argv(&["2026-12-25"]), &CliConfig::until(), fresh(), d(2026, 5, 31)).output;
    assert_eq!(out.code, 0);
    let line = out.stdout.unwrap();
    assert_eq!(line, "2026-12-25: in 6 months, 25 days");
    assert!(!line.contains("already passed"));
}

#[test]
fn until_anchor_subcommands_share_the_store() {
    // Add through `until`, read back through `since`: one shared store.
    let add = run(&argv(&["anchor", "add", "launch", "2026-09-01"]), &CliConfig::until(), fresh(), d(2026, 5, 31));
    assert_eq!(add.output.code, 0);
    let store = saved(add).unwrap();

    let via_since = run(&argv(&["launch"]), &CliConfig::since(), Ok(store.clone()), d(2026, 5, 31)).output;
    assert_eq!(via_since.stdout.unwrap(), "launch (2026-09-01): in 3 months, 1 day");

    let via_until = run(&argv(&["launch"]), &CliConfig::until(), Ok(store), d(2026, 5, 31)).output;
    assert_eq!(via_until.stdout.unwrap(), "launch (2026-09-01): in 3 months, 1 day");
}

#[test]
fn until_note_text_for_past_dates() {
    let out = run(&argv(&["2020-03-01"]), &CliConfig::until(), fresh(), d(2026, 5, 31)).output;
    assert_eq!(
        out.stdout.unwrap(),
        format!("2020-03-01: 6 years, 2 months, 30 days ago  ({})", ALREADY_PASSED_NOTE)
    );
    let today = run(&argv(&["2026-05-31"]), &CliConfig::until(), fresh(), d(2026, 5, 31)).output;
    assert_eq!(today.stdout.unwrap(), "2026-05-31: today");
}

#[test]
fn usage_texts() {
    let out = run(&[], &CliConfig::until(), fresh(), d(2026, 5, 31)).output;
    assert_eq!(
        out.stderr.unwrap(),
        "usage: until <YYYY-MM-DD | anchor-name>\n       until anchor add <name> <YYYY-MM-DD>\n       until anchor list\n       until anchor remove <name>"
    );
    let bare = run(&argv(&["anchor"]), &CliConfig::since(), fresh(), d(2026, 5, 31)).output;
    assert_eq!(bare.code, 2);
    assert_eq!(bare.stderr.unwrap(), "usage: since anchor add|list|remove ...");
    let add = run(&argv(&["anchor", "add", "x"]), &CliConfig::since(), fresh(), d(2026, 5, 31)).output;
    assert_eq!(add.code, 2);
    assert_eq!(add.stderr.unwrap(), "usage: since anchor add <name> <YYYY-MM-DD>");
    let rm = run(&argv(&["anchor", "rm"]), &CliConfig::since(), fresh(), d(2026, 5, 31)).output;
    assert_eq!(rm.code, 2);
    assert_eq!(rm.stderr.unwrap(), "usage: anchor remove <name>");
    let other = run(&argv(&["anchor", "rename"]), &CliConfig::until(), fresh(), d(2026, 5, 31)).output;
    assert_eq!(other.code, 2);
    assert_eq!(
        other.stderr.unwrap(),
        "unknown anchor subcommand: rename\n  try: until anchor add|list|remove"
    );
}

#[test]
fn removing_an_anchor_reports_its_date() {
    let cfg = CliConfig::since();
    let add = run(&argv(&["anchor", "add", " Covid ", "2020-03-01"]), &cfg, fresh(), d(2026, 5, 31));
    let rm = run(&argv(&["anchor", "rm", "COVID"]), &cfg, saved(add), d(2026, 5, 31));
    assert_eq!(rm.output.stdout.clone().unwrap(), "removed anchor 'covid' (was 2020-03-01)");
    let store = saved(rm).unwrap();
    assert!(store.is_empty());
}

#[test]
fn store_load_failures_are_reported() {
    let broken = || Err(Error::Json("expected value at line 1 column 1".to_string()));
    let cfg = CliConfig::since();
    let out = run(&argv(&["covid"]), &cfg, broken(), d(2026, 5, 31)).output;
    assert_eq!(out.code, 1);
    assert_eq!(
        out.stderr.unwrap(),
        "anchors file is not valid JSON: expected value at line 1 column 1"
    );
    let list = run(&argv(&["anchor", "list"]), &cfg, broken(), d(2026, 5, 31)).output;
    assert_eq!(list.code, 1);
    // A bad date is reported before the store is looked at.
    let bad = run(&argv(&["anchor", "add", "x", "2020-13-01"]), &cfg, broken(), d(2026, 5, 31)).output;
    assert_eq!(bad.stderr.unwrap(), "not a valid ISO date (YYYY-MM-DD): 2020-13-01");
}

#[test]
fn failed_save_replaces_the_output() {
    let ok = CliOutput::ok("added".to_string());
    assert_eq!(after_save(ok.clone(), Ok(())), ok);
    let failed = after_save(ok, Err(Error::Io("read-only".to_string())));
    assert_eq!(failed.code, 1);
    assert_eq!(failed.stdout, None);
    assert_eq!(failed.stderr.unwrap(), "anchors file i/o error: read-only");
}

#[test]
fn configs_and_framing() {
    assert_eq!(CliConfig::since().program, "since");
    assert_eq!(CliConfig::since().framing, Framing::Since);
    assert_eq!(CliConfig::until().program, "until");
    assert_eq!(CliConfig::until().framing, Framing::Until);
    assert_eq!(CliOutput::fail("x".to_string(), 2).code, 2);
}

#[test]
fn runs_outside_the_supported_months_are_refused() {
    let far = format!("+{}-12-05", since_until::calendar::LAST_YEAR);
    assert!(try_run(&argv(&[&far]), &CliConfig::since(), fresh(), d(2026, 5, 31)).is_none());
    assert!(try_run(&argv(&["2020-03-01"]), &CliConfig::since(), fresh(), d(2026, 5, 31)).is_some());
}
