use aw_sync::models::Event;
use aw_sync::store::StoreError;
use aw_sync::transfer::{cursor_after, prepare_events, query_events};
use serde_json::Value;

fn payload(label: &str) -> serde_json::Map<String, Value> {
    let mut data = serde_json::Map::new();
    data.insert("label".to_string(), Value::from(label));
    data
}

fn event(id: Option<i64>, timestamp: i64, duration: i64, label: &str) -> Event {
    Event { id, timestamp, duration, data: payload(label) }
}

fn labels(events: &[Event]) -> Vec<String> {
    events.iter().map(|e| e.data["label"].as_str().unwrap().to_string()).collect()
}

#[test]
fn prepare_strips_every_identifier() {
    let fetched = vec![event(Some(1), 0, 0, "a"), event(Some(2), 10, 5, "b"), event(None, 20, 0, "c")];
    let prepared = prepare_events(fetched);
    assert_eq!(prepared.events.len(), 3);
    assert!(prepared.malformed.is_empty());
    assert!(prepared.events.iter().all(|e| e.id.is_none()));
    assert_eq!(labels(&prepared.events), vec!["a", "b", "c"]);
    assert_eq!(prepared.events[1].timestamp, 10);
    assert_eq!(prepared.events[1].duration, 5);
}

#[test]
fn prepare_sorts_by_start() {
    let fetched = vec![
        event(Some(4), 30, 0, "d"),
        event(Some(3), 10, 0, "b"),
        event(Some(2), 20, 0, "c"),
        event(Some(1), -5, 0, "a"),
    ];
    let prepared = prepare_events(fetched);
    let starts: Vec<i64> = prepared.events.iter().map(|e| e.timestamp).collect();
    assert_eq!(starts, vec![-5, 10, 20, 30]);
    assert_eq!(labels(&prepared.events), vec!["a", "b", "c", "d"]);
}

#[test]
fn prepare_keeps_fetch_order_among_equal_starts() {
    let fetched = vec![
        event(Some(1), 10, 0, "first"),
        event(Some(2), 5, 0, "early"),
        event(Some(3), 10, 3, "second"),
        event(Some(4), 10, 1, "third"),
    ];
    let prepared = prepare_events(fetched);
    assert_eq!(labels(&prepared.events), vec!["early", "first", "second", "third"]);
}

#[test]
fn prepare_skips_malformed_records() {
    let fetched = vec![
        event(Some(1), 0, 1, "ok"),
        event(Some(2), 5, -1, "backwards"),
        event(Some(3), i64::MAX, 1, "endless"),
        event(Some(4), i64::MAX, 0, "last instant"),
        event(Some(5), 3, 0, "fine"),
    ];
    let prepared = prepare_events(fetched);
    assert_eq!(labels(&prepared.events), vec!["ok", "fine", "last instant"]);
    assert_eq!(labels(&prepared.malformed), vec!["backwards", "endless"]);
    assert_eq!(prepared.malformed[0].id, Some(2));
    assert_eq!(prepared.malformed[0].duration, -1);
    assert_eq!(prepared.malformed[1].id, Some(3));
    assert_eq!(prepared.malformed[1].timestamp, i64::MAX);
}

#[test]
fn prepare_of_nothing_is_nothing() {
    let prepared = prepare_events(Vec::new());
    assert!(prepared.events.is_empty());
    assert!(prepared.malformed.is_empty());
}

#[test]
fn cursor_of_empty_bucket_is_absent() {
    assert!(matches!(cursor_after(&Vec::new()), Ok(None)));
}

#[test]
fn cursor_is_end_of_latest_event() {
    assert!(matches!(cursor_after(&vec![event(Some(9), 20, 0, "x")]), Ok(Some(20))));
    assert!(matches!(cursor_after(&vec![event(Some(9), 20, 15, "x")]), Ok(Some(35))));
    assert!(matches!(cursor_after(&vec![event(None, -100, 40, "x")]), Ok(Some(-60))));
    let two = vec![event(Some(1), 0, 100, "old"), event(Some(2), 50, 1, "new")];
    assert!(matches!(cursor_after(&two), Ok(Some(51))));
}

#[test]
fn cursor_refuses_malformed_latest_event() {
    assert!(matches!(
        cursor_after(&vec![event(Some(1), 20, -1, "x")]),
        Err(StoreError::MalformedRecord)
    ));
    assert!(matches!(
        cursor_after(&vec![event(Some(1), i64::MAX - 1, 2, "x")]),
        Err(StoreError::MalformedRecord)
    ));
    assert!(matches!(cursor_after(&vec![event(Some(1), i64::MAX - 1, 1, "x")]), Ok(Some(i64::MAX))));
}

#[test]
fn event_shape_and_end() {
    assert!(event(None, 0, 0, "x").is_well_formed());
    assert!(!event(None, 0, -1, "x").is_well_formed());
    assert!(!event(None, i64::MAX, 1, "x").is_well_formed());
    assert_eq!(event(None, 7, 8, "x").end(), Some(15));
    assert_eq!(event(None, i64::MIN, -1, "x").end(), None);
    assert_eq!(event(None, 10, -4, "x").end(), Some(6));
}

#[test]
fn duplicate_event_keeps_everything() {
    let given = event(Some(3), 7, 8, "x");
    let copy = given.duplicate();
    assert_eq!(copy.id, Some(3));
    assert_eq!(copy.timestamp, 7);
    assert_eq!(copy.duration, 8);
    assert_eq!(copy.data, given.data);
}

#[test]
fn query_selects_by_start_and_keeps_identifiers() {
    let held = vec![
        event(Some(11), 0, 50, "a"),
        event(Some(12), 10, 0, "b"),
        event(None, 20, 0, "c"),
        event(Some(14), 30, 0, "d"),
    ];
    let hits = query_events(&held, Some(10), Some(30), None);
    assert_eq!(labels(&hits), vec!["b", "c"]);
    assert_eq!(hits[0].id, Some(12));
    assert_eq!(hits[1].id, None);
    let latest = query_events(&held, None, None, Some(1));
    assert_eq!(labels(&latest), vec!["d"]);
    assert_eq!(latest[0].id, Some(14));
    assert_eq!((latest[0].timestamp, latest[0].duration), (30, 0));
    let two = query_events(&held, None, Some(30), Some(2));
    assert_eq!(labels(&two), vec!["b", "c"]);
    assert_eq!(query_events(&held, Some(31), None, None).len(), 0);
    assert_eq!(query_events(&held, None, None, Some(0)).len(), 0);
    assert_eq!(query_events(&held, None, None, None).len(), 4);
    assert_eq!(held.len(), 4);
}
