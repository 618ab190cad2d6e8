use since_until::cli::{Framing, ALREADY_PASSED_NOTE};
use since_until::mcp::{load_anchors, measure_token, try_measure_token};
use since_until::{AnchorStore, Date};

fn d(y: i32, m: u32, day: u32) -> Date {
    Date::from_ymd_opt(y, m, day).unwrap()
}

#[test]
fn since_tool_reports_numbers_and_sentence() {
    let mut store = AnchorStore::new();
    store.add("covid", d(2020, 3, 1));
    let r = measure_token("covid", Framing::Since, &store, d(2026, 5, 31)).unwrap();
    assert_eq!(r.token, "covid");
    assert_eq!(r.date, "2020-03-01");
    assert_eq!((r.years, r.months, r.days), (6, 2, 30));
    assert_eq!(r.direction, "past");
    assert_eq!(r.humanized, "6 years, 2 months, 30 days ago");
    assert_eq!(r.note, None);
}

#[test]
fn until_tool_notes_past_dates() {
    let store = AnchorStore::new();
    let r = measure_token("2020-03-01", Framing::Until, &store, d(2026, 5, 31)).unwrap();
    assert_eq!(r.note, Some(ALREADY_PASSED_NOTE.to_string()));
    let f = measure_token("2026-12-25", Framing::Until, &store, d(2026, 5, 31)).unwrap();
    assert_eq!(f.direction, "future");
    assert_eq!(f.note, None);
}

#[test]
fn tool_errors_are_messages() {
    let store = AnchorStore::new();
    let e = measure_token("nope", Framing::Since, &store, d(2026, 5, 31)).err().unwrap();
    assert_eq!(e, "unknown date or anchor: nope");
    assert!(try_measure_token("nope", Framing::Since, &store, d(2026, 5, 31)).is_some());
}

#[test]
fn list_anchors_tool() {
    let mut store = AnchorStore::new();
    store.add("covid", d(2020, 3, 1));
    store.add("bella-birthday", d(2019, 7, 14));
    let r = load_anchors(&store);
    assert_eq!(r.count, 2);
    assert_eq!(
        r.anchors,
        vec![
            ("bella-birthday".to_string(), "2019-07-14".to_string()),
            ("covid".to_string(), "2020-03-01".to_string()),
        ]
    );
    assert_eq!(load_anchors(&AnchorStore::new()).count, 0);
}
