use since_until::{measure, normalize, resolve_token, AnchorStore, Date, Direction, Error};
use since_until::anchors::{resolve_parsed, try_measure};
use since_until::calendar::LAST_YEAR;

fn d(y: i32, m: u32, day: u32) -> Date {
    Date::from_ymd_opt(y, m, day).unwrap()
}

#[test]
fn nicknames_are_case_insensitive_and_trimmed() {
    let mut store = AnchorStore::default();
    store.add("  Covid ", d(2020, 3, 1));
    assert_eq!(store.get("covid"), Some(d(2020, 3, 1)));
    assert_eq!(store.get("COVID"), Some(d(2020, 3, 1)));
    assert_eq!(store.get(" covid  "), Some(d(2020, 3, 1)));
    assert_eq!(store.remove("CoViD"), Some(d(2020, 3, 1)));
    assert!(store.get("covid").is_none());
}

#[test]
fn resolve_iso_date() {
    let store = AnchorStore::default();
    assert_eq!(resolve_token("2020-03-01", &store).unwrap(), d(2020, 3, 1));
}

#[test]
fn resolve_anchor_nickname() {
    let mut store = AnchorStore::default();
    store.add("covid", d(2020, 3, 1));
    assert_eq!(resolve_token("covid", &store).unwrap(), d(2020, 3, 1));
}

#[test]
fn resolve_iso_wins_over_anchor() {
    let mut store = AnchorStore::default();
    store.add("2020-03-01", d(1999, 1, 1));
    assert_eq!(resolve_token("2020-03-01", &store).unwrap(), d(2020, 3, 1));
}

#[test]
fn resolve_unknown_is_clear_error() {
    let store = AnchorStore::default();
    let err = resolve_token("nope", &store).unwrap_err();
    assert!(matches!(err, Error::UnknownToken(_)));
    assert_eq!(err.message(), "unknown date or anchor: nope");
}

#[test]
fn resolve_trims_the_token() {
    let mut store = AnchorStore::new();
    store.add("covid", d(2020, 3, 1));
    assert_eq!(resolve_token("  2021-04-05 ", &store).unwrap(), d(2021, 4, 5));
    assert_eq!(resolve_token(" Covid\t", &store).unwrap(), d(2020, 3, 1));
    match resolve_token(" nope ", &store) {
        Err(Error::UnknownToken(t)) => assert_eq!(t, " nope "),
        _ => panic!("expected an unknown token"),
    }
}

#[test]
fn resolving_after_the_iso_reading() {
    let mut store = AnchorStore::new();
    store.add("covid", d(2020, 3, 1));
    assert_eq!(resolve_parsed("covid", Some(d(1999, 1, 1)), &store).unwrap(), d(1999, 1, 1));
    assert_eq!(resolve_parsed("covid", None, &store).unwrap(), d(2020, 3, 1));
    assert!(resolve_parsed("other", None, &store).is_err());
}

#[test]
fn normalizing_nicknames() {
    assert_eq!(normalize("  Covid "), "covid");
    assert_eq!(normalize("Bella-Birthday"), "bella-birthday");
    assert_eq!(normalize("ÄRGER"), "ärger");
}

#[test]
fn store_add_overwrites_and_lists_in_order() {
    let mut store = AnchorStore::new();
    assert!(store.is_empty());
    store.add("covid", d(2020, 3, 1));
    store.add("bella-birthday", d(2019, 7, 14));
    store.add("Covid", d(2020, 3, 2));
    assert!(!store.is_empty());
    let listed: Vec<(String, Date)> = store.list().clone();
    assert_eq!(
        listed,
        vec![
            ("bella-birthday".to_string(), d(2019, 7, 14)),
            ("covid".to_string(), d(2020, 3, 2)),
        ]
    );
    assert_eq!(store.remove("missing"), None);
    assert_eq!(store.list().len(), 2);
}

#[test]
fn listed_nicknames_are_normalized() {
    let mut store = AnchorStore::default();
    store.add("  Mixed ", d(2001, 1, 1));
    store.add("Zeta", d(2002, 2, 2));
    store.add("alpha", d(2003, 3, 3));
    store.remove("ZETA");
    store.add("\tBeta\n", d(2004, 4, 4));
    let keys: Vec<String> = store.list().iter().map(|e| e.0.clone()).collect();
    assert_eq!(keys, vec!["alpha", "beta", "mixed"]);
    for key in &keys {
        assert_eq!(&normalize(key), key);
    }
}

#[test]
fn measuring_a_token() {
    let mut store = AnchorStore::new();
    store.add("covid", d(2020, 3, 1));
    let (date, span) = measure("covid", &store, d(2026, 5, 31)).unwrap();
    assert_eq!(date, d(2020, 3, 1));
    assert_eq!(span.direction, Direction::Past);
    assert_eq!(span.humanized, "6 years, 2 months, 30 days ago");
    assert!(measure("nope", &store, d(2026, 5, 31)).is_err());
}

#[test]
fn measuring_outside_the_supported_months() {
    let store = AnchorStore::new();
    let far = format!("+{}-12-05", LAST_YEAR);
    assert!(try_measure(&far, &store, d(2026, 5, 31)).is_none());
    assert!(try_measure("2020-03-01", &store, d(2026, 5, 31)).is_some());
    assert!(matches!(try_measure("nope", &store, d(2026, 5, 31)), Some(Err(_))));
}

#[test]
fn error_messages() {
    assert_eq!(Error::Io("denied".to_string()).message(), "anchors file i/o error: denied");
    assert_eq!(Error::Json("eof".to_string()).message(), "anchors file is not valid JSON: eof");
    assert_eq!(Error::NoConfigDir.message(), "could not determine a config directory");
}

#[test]
fn cloned_store_is_independent() {
    let mut store = AnchorStore::default();
    store.add("covid", d(2020, 3, 1));
    let copy = store.clone();
    store.remove("covid");
    assert_eq!(copy.get("covid"), Some(d(2020, 3, 1)));
    assert_eq!(store.get("covid"), None);
}
