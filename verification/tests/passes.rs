use std::cell::{Cell, RefCell};

use aw_sync::memory::MemoryStore;
use aw_sync::models::{Bucket, Event};
use aw_sync::store::{AccessMethod, StoreError, StoreState};
use aw_sync::sync::{
    get_or_create_sync_bucket, resume_point, settle_creation, sync_bucket, sync_datastores,
    BucketReport, SyncOutcome,
};
use serde_json::Value;

fn bucket(id: &str, hostname: &str) -> Bucket {
    Bucket {
        id: id.to_string(),
        bucket_type: "test".to_string(),
        hostname: hostname.to_string(),
        client: "watcher".to_string(),
        metadata: serde_json::Map::new(),
    }
}

fn payload(label: &str) -> serde_json::Map<String, Value> {
    let mut data = serde_json::Map::new();
    data.insert("label".to_string(), Value::from(label));
    data
}

fn event(timestamp: i64, duration: i64, label: &str) -> Event {
    Event { id: None, timestamp, duration, data: payload(label) }
}

fn shape(events: &[Event]) -> Vec<(i64, i64, String)> {
    events
        .iter()
        .map(|e| (e.timestamp, e.duration, e.data["label"].as_str().unwrap().to_string()))
        .collect()
}

fn row(timestamp: i64, duration: i64, label: &str) -> (i64, i64, String) {
    (timestamp, duration, label.to_string())
}

fn source_with(id: &str, hostname: &str, events: Vec<Event>) -> MemoryStore {
    let mut store = MemoryStore::new();
    store.create_bucket(&bucket(id, hostname)).unwrap();
    store.insert_events(id, events).unwrap();
    store
}

fn three_events() -> Vec<Event> {
    vec![event(0, 0, "a"), event(10, 0, "b"), event(20, 0, "c")]
}

fn synced(report: &BucketReport) -> (i64, i64, i64, usize) {
    match &report.outcome {
        SyncOutcome::Synced { count_before, count_after, delta, skipped, .. } => {
            (*count_before, *count_after, *delta, skipped.len())
        }
        SyncOutcome::Failed { cause } => panic!("{} failed: {:?}", report.source_id, cause),
    }
}

fn by_source<'a>(reports: &'a [BucketReport], id: &str) -> &'a BucketReport {
    reports.iter().find(|r| r.source_id == id).unwrap()
}

/// A store in memory that can be told to misbehave, and that notes what it
/// was asked.
struct Scripted {
    inner: MemoryStore,
    lookups_to_miss: Cell<u32>,
    writes_before_failure: Cell<Option<u32>>,
    unreadable_bucket: Option<String>,
    unlistable: bool,
    queries: RefCell<Vec<(String, Option<i64>, Option<i64>, Option<u64>)>>,
    written_ids: RefCell<Vec<Option<i64>>>,
    creations: Cell<u32>,
}

impl Scripted {
    fn over(inner: MemoryStore) -> Scripted {
        Scripted {
            inner,
            lookups_to_miss: Cell::new(0),
            writes_before_failure: Cell::new(None),
            unreadable_bucket: None,
            unlistable: false,
            queries: RefCell::new(Vec::new()),
            written_ids: RefCell::new(Vec::new()),
            creations: Cell::new(0),
        }
    }
}

fn down() -> StoreError {
    StoreError::BackendError("connection lost".to_string())
}

impl AccessMethod for Scripted {
    fn state(&self) -> StoreState {
        unreachable!()
    }

    fn get_buckets(&self) -> Result<Vec<Bucket>, StoreError> {
        if self.unlistable {
            return Err(down());
        }
        self.inner.get_buckets()
    }

    fn get_bucket(&self, bucket_id: &str) -> Result<Bucket, StoreError> {
        if self.lookups_to_miss.get() > 0 {
            self.lookups_to_miss.set(self.lookups_to_miss.get() - 1);
            return Err(StoreError::NoSuchBucket);
        }
        self.inner.get_bucket(bucket_id)
    }

    fn create_bucket(&mut self, bucket: &Bucket) -> Result<(), StoreError> {
        self.creations.set(self.creations.get() + 1);
        self.inner.create_bucket(bucket)
    }

    fn get_events(
        &self,
        bucket_id: &str,
        start: Option<i64>,
        end: Option<i64>,
        limit: Option<u64>,
    ) -> Result<Vec<Event>, StoreError> {
        self.queries.borrow_mut().push((bucket_id.to_string(), start, end, limit));
        if self.unreadable_bucket.as_deref() == Some(bucket_id) {
            return Err(down());
        }
        self.inner.get_events(bucket_id, start, end, limit)
    }

    fn insert_events(&mut self, bucket_id: &str, events: Vec<Event>) -> Result<(), StoreError> {
        self.inner.insert_events(bucket_id, events)
    }

    fn get_event_count(
        &self,
        bucket_id: &str,
        start: Option<i64>,
        end: Option<i64>,
    ) -> Result<i64, StoreError> {
        self.inner.get_event_count(bucket_id, start, end)
    }

    fn heartbeat(&mut self, bucket_id: &str, event: Event, pulsetime: i64) -> Result<Event, StoreError> {
        if let Some(left) = self.writes_before_failure.get() {
            if left == 0 {
                return Err(down());
            }
            self.writes_before_failure.set(Some(left - 1));
        }
        self.written_ids.borrow_mut().push(event.id);
        self.inner.heartbeat(bucket_id, event, pulsetime)
    }
}

#[test]
fn first_pass_mirrors_the_bucket() {
    let source = source_with("b", "laptop", three_events());
    let mut dest = MemoryStore::new();
    let reports = sync_datastores(&source, &mut dest).unwrap();
    assert_eq!(reports.len(), 1);
    assert_eq!(reports[0].source_id, "b");
    assert_eq!(reports[0].destination_id, "b-synced-from-laptop");
    assert_eq!(synced(&reports[0]), (0, 3, 3, 0));
    assert!(matches!(&reports[0].outcome, SyncOutcome::Synced { resume_at: None, .. }));
    let listed = dest.get_buckets().unwrap();
    assert_eq!(listed.len(), 1);
    let mirror = dest.get_bucket("b-synced-from-laptop").unwrap();
    assert_eq!(mirror.id, "b-synced-from-laptop");
    assert_eq!(mirror.hostname, "laptop");
    assert_eq!(mirror.bucket_type, "test");
    assert_eq!(mirror.client, "watcher");
    assert_eq!(mirror.metadata.len(), 2);
    assert_eq!(mirror.metadata.get("sync.origin"), Some(&Value::from("laptop")));
    assert_eq!(mirror.metadata.get("sync.id"), Some(&Value::from("b")));
    let events = dest.get_events("b-synced-from-laptop", None, None, None).unwrap();
    assert_eq!(shape(&events), vec![row(0, 0, "a"), row(10, 0, "b"), row(20, 0, "c")]);
    assert_eq!(dest.get_event_count("b-synced-from-laptop", None, None).unwrap(), 3);
    assert_eq!(source.get_event_count("b", None, None).unwrap(), 3);
}

#[test]
fn second_pass_adds_only_the_new_event() {
    let mut source = source_with("b", "laptop", three_events());
    let mut dest = MemoryStore::new();
    sync_datastores(&source, &mut dest).unwrap();
    let before = dest.get_events("b-synced-from-laptop", None, None, None).unwrap();
    source.insert_events("b", vec![event(30, 0, "d")]).unwrap();
    let reports = sync_datastores(&source, &mut dest).unwrap();
    assert_eq!(synced(&reports[0]), (3, 4, 1, 0));
    assert!(matches!(&reports[0].outcome, SyncOutcome::Synced { resume_at: Some(20), .. }));
    let after = dest.get_events("b-synced-from-laptop", None, None, None).unwrap();
    assert_eq!(
        shape(&after),
        vec![row(0, 0, "a"), row(10, 0, "b"), row(20, 0, "c"), row(30, 0, "d")]
    );
    for i in 0..3 {
        assert_eq!(after[i].id, before[i].id);
        assert_eq!(after[i].timestamp, before[i].timestamp);
        assert_eq!(after[i].duration, before[i].duration);
        assert_eq!(after[i].data, before[i].data);
    }
}

#[test]
fn lost_creation_race_uses_the_existing_bucket() {
    let source = source_with("b", "laptop", three_events());
    let mut theirs = bucket("b-synced-from-laptop", "laptop");
    theirs.metadata.insert("made.by".to_string(), Value::from("the other process"));
    let mut inner = MemoryStore::new();
    inner.create_bucket(&theirs).unwrap();
    let mut dest = Scripted::over(inner);
    dest.lookups_to_miss.set(1);
    let reports = sync_datastores(&source, &mut dest).unwrap();
    assert_eq!(dest.creations.get(), 1);
    assert_eq!(synced(&reports[0]), (0, 3, 3, 0));
    assert_eq!(dest.inner.get_buckets().unwrap().len(), 1);
    let used = dest.inner.get_bucket("b-synced-from-laptop").unwrap();
    assert_eq!(used.metadata.get("made.by"), Some(&Value::from("the other process")));
    assert_eq!(dest.inner.get_event_count("b-synced-from-laptop", None, None).unwrap(), 3);
}

#[test]
fn settle_creation_takes_existing_bucket_for_success() {
    assert!(matches!(settle_creation(Ok(())), Ok(())));
    assert!(matches!(settle_creation(Err(StoreError::BucketAlreadyExists)), Ok(())));
    assert!(matches!(settle_creation(Err(down())), Err(StoreError::BackendError(_))));
    assert!(matches!(settle_creation(Err(StoreError::NoSuchBucket)), Err(StoreError::NoSuchBucket)));
    assert!(matches!(
        settle_creation(Err(StoreError::MalformedRecord)),
        Err(StoreError::MalformedRecord)
    ));
}

#[test]
fn repeated_pass_gains_nothing() {
    let mut source = source_with("b", "laptop", three_events());
    source.create_bucket(&bucket("afk", "laptop")).unwrap();
    source
        .insert_events("afk", vec![event(0, 50, "here"), event(60, 5, "away"), event(66, 100, "here")])
        .unwrap();
    source.create_bucket(&bucket("idle", "laptop")).unwrap();
    let mut dest = MemoryStore::new();
    let first = sync_datastores(&source, &mut dest).unwrap();
    assert_eq!(first.len(), 3);
    assert_eq!(synced(by_source(&first, "b")).2, 3);
    assert_eq!(synced(by_source(&first, "afk")).2, 3);
    assert_eq!(synced(by_source(&first, "idle")).2, 0);
    let second = sync_datastores(&source, &mut dest).unwrap();
    assert_eq!(second.len(), 3);
    for report in &second {
        let (before, after, delta, skipped) = synced(report);
        assert_eq!(delta, 0);
        assert_eq!(before, after);
        assert_eq!(skipped, 0);
    }
    let third = sync_datastores(&source, &mut dest).unwrap();
    assert!(third.iter().all(|r| synced(r).2 == 0));
    assert_eq!(dest.get_event_count("afk-synced-from-laptop", None, None).unwrap(), 3);
}

#[test]
fn destination_stays_in_order_of_time() {
    let source = source_with(
        "b",
        "laptop",
        vec![event(40, 1, "e"), event(5, 2, "a"), event(30, 0, "d"), event(10, 3, "b"), event(20, 1, "c")],
    );
    let mut dest = MemoryStore::new();
    dest.create_bucket(&bucket("b-synced-from-laptop", "laptop")).unwrap();
    dest.insert_events("b-synced-from-laptop", vec![event(1, 0, "x"), event(3, 1, "y")]).unwrap();
    let reports = sync_datastores(&source, &mut dest).unwrap();
    assert_eq!(synced(&reports[0]), (2, 7, 5, 0));
    let events = dest.get_events("b-synced-from-laptop", None, None, None).unwrap();
    assert_eq!(
        shape(&events),
        vec![
            row(1, 0, "x"),
            row(3, 1, "y"),
            row(5, 2, "a"),
            row(10, 3, "b"),
            row(20, 1, "c"),
            row(30, 0, "d"),
            row(40, 1, "e")
        ]
    );
    assert!(events.windows(2).all(|pair| pair[0].timestamp <= pair[1].timestamp));
}

#[test]
fn events_that_touch_are_merged() {
    let source = source_with("b", "laptop", vec![event(0, 100, "a"), event(10, 0, "b"), event(100, 5, "c"), event(106, 1, "d")]);
    let mut dest = MemoryStore::new();
    let reports = sync_datastores(&source, &mut dest).unwrap();
    assert_eq!(synced(&reports[0]), (0, 2, 2, 0));
    let events = dest.get_events("b-synced-from-laptop", None, None, None).unwrap();
    assert_eq!(shape(&events), vec![row(0, 105, "a"), row(106, 1, "d")]);
}

#[test]
fn no_identifier_crosses_to_the_destination() {
    let source = source_with("b", "laptop", three_events());
    let held = source.get_events("b", None, None, None).unwrap();
    assert!(held.iter().all(|e| e.id.is_some()));
    let mut dest = Scripted::over(MemoryStore::new());
    sync_datastores(&source, &mut dest).unwrap();
    assert_eq!(*dest.written_ids.borrow(), vec![None, None, None]);
}

#[test]
fn pass_resumes_where_the_destination_ends() {
    let mut inner = source_with("b", "laptop", vec![event(0, 0, "a"), event(10, 0, "b"), event(20, 7, "c")]);
    inner.insert_events("b", vec![event(25, 0, "inside")]).unwrap();
    let source = Scripted::over(inner);
    let mut dest = MemoryStore::new();
    sync_datastores(&source, &mut dest).unwrap();
    assert_eq!(*source.queries.borrow(), vec![("b".to_string(), None, None, None)]);
    source.queries.borrow_mut().clear();
    let latest = dest.get_events("b-synced-from-laptop", None, None, Some(1)).unwrap();
    assert_eq!((latest[0].timestamp, latest[0].duration), (20, 7));
    let reports = sync_datastores(&source, &mut dest).unwrap();
    assert_eq!(*source.queries.borrow(), vec![("b".to_string(), Some(27), None, None)]);
    assert_eq!(synced(&reports[0]), (3, 3, 0, 0));
    assert!(matches!(&reports[0].outcome, SyncOutcome::Synced { resume_at: Some(27), .. }));
}

#[test]
fn resume_point_reads_the_latest_event() {
    let mut store = source_with("b", "h", vec![event(0, 100, "a"), event(50, 10, "b")]);
    assert!(matches!(resume_point(&store, "b"), Ok(Some(60))));
    assert!(matches!(resume_point(&store, "missing"), Ok(None)));
    store.create_bucket(&bucket("empty", "h")).unwrap();
    assert!(matches!(resume_point(&store, "empty"), Ok(None)));
    store.insert_events("b", vec![event(70, -5, "backwards")]).unwrap();
    assert!(matches!(resume_point(&store, "b"), Err(StoreError::MalformedRecord)));
    let mut broken = Scripted::over(store);
    broken.unreadable_bucket = Some("b".to_string());
    assert!(matches!(resume_point(&broken, "b"), Err(StoreError::BackendError(_))));
}

#[test]
fn found_destination_bucket_is_returned_unchanged() {
    let mut dest = MemoryStore::new();
    let mut existing = bucket("b-synced-from-laptop", "elsewhere");
    existing.metadata.insert("k".to_string(), Value::from(1));
    dest.create_bucket(&existing).unwrap();
    let found = get_or_create_sync_bucket(&bucket("b", "laptop"), &mut dest).unwrap();
    assert_eq!(found.id, "b-synced-from-laptop");
    assert_eq!(found.hostname, "elsewhere");
    assert_eq!(found.metadata, existing.metadata);
    assert_eq!(dest.get_buckets().unwrap().len(), 1);
}

#[test]
fn missing_destination_bucket_is_created_once() {
    let mut dest = Scripted::over(MemoryStore::new());
    let source = bucket("b-synced", "laptop");
    let first = get_or_create_sync_bucket(&source, &mut dest).unwrap();
    let second = get_or_create_sync_bucket(&source, &mut dest).unwrap();
    assert_eq!(first.id, "b-synced-from-laptop");
    assert_eq!(second.id, first.id);
    assert_eq!(second.metadata, first.metadata);
    assert_eq!(first.metadata.get("sync.id"), Some(&Value::from("b-synced")));
    assert_eq!(dest.creations.get(), 1);
    assert_eq!(dest.inner.get_buckets().unwrap().len(), 1);
}

#[test]
fn failed_creation_fails_the_bucket() {
    struct Full(MemoryStore);
    impl AccessMethod for Full {
        fn state(&self) -> StoreState {
            unreachable!()
        }
        fn get_buckets(&self) -> Result<Vec<Bucket>, StoreError> {
            self.0.get_buckets()
        }
        fn get_bucket(&self, bucket_id: &str) -> Result<Bucket, StoreError> {
            self.0.get_bucket(bucket_id)
        }
        fn create_bucket(&mut self, _bucket: &Bucket) -> Result<(), StoreError> {
            Err(StoreError::BackendError("disk full".to_string()))
        }
        fn get_events(
            &self,
            bucket_id: &str,
            start: Option<i64>,
            end: Option<i64>,
            limit: Option<u64>,
        ) -> Result<Vec<Event>, StoreError> {
            self.0.get_events(bucket_id, start, end, limit)
        }
        fn insert_events(&mut self, bucket_id: &str, events: Vec<Event>) -> Result<(), StoreError> {
            self.0.insert_events(bucket_id, events)
        }
        fn get_event_count(
            &self,
            bucket_id: &str,
            start: Option<i64>,
            end: Option<i64>,
        ) -> Result<i64, StoreError> {
            self.0.get_event_count(bucket_id, start, end)
        }
        fn heartbeat(&mut self, bucket_id: &str, event: Event, pulsetime: i64) -> Result<Event, StoreError> {
            self.0.heartbeat(bucket_id, event, pulsetime)
        }
    }
    let source = source_with("b", "laptop", three_events());
    let mut dest = Full(MemoryStore::new());
    let resolved = get_or_create_sync_bucket(&bucket("b", "laptop"), &mut dest);
    assert!(matches!(resolved, Err(StoreError::BackendError(_))));
    let reports = sync_datastores(&source, &mut dest).unwrap();
    assert!(matches!(
        &reports[0].outcome,
        SyncOutcome::Failed { cause: StoreError::BackendError(message) } if message == "disk full"
    ));
    assert!(dest.0.get_buckets().unwrap().is_empty());
}

#[test]
fn unlistable_source_fails_the_pass_and_writes_nothing() {
    let mut source = Scripted::over(source_with("b", "laptop", three_events()));
    source.unlistable = true;
    let mut dest = MemoryStore::new();
    assert!(matches!(sync_datastores(&source, &mut dest), Err(StoreError::BackendError(_))));
    assert!(dest.get_buckets().unwrap().is_empty());
}

#[test]
fn failing_bucket_does_not_stop_the_others() {
    let mut inner = source_with("b", "laptop", three_events());
    inner.create_bucket(&bucket("broken", "laptop")).unwrap();
    inner.insert_events("broken", vec![event(1, 1, "x")]).unwrap();
    inner.create_bucket(&bucket("c", "laptop")).unwrap();
    inner.insert_events("c", vec![event(2, 2, "y")]).unwrap();
    let mut source = Scripted::over(inner);
    source.unreadable_bucket = Some("broken".to_string());
    let mut dest = MemoryStore::new();
    let reports = sync_datastores(&source, &mut dest).unwrap();
    assert_eq!(reports.len(), 3);
    assert_eq!(synced(by_source(&reports, "b")), (0, 3, 3, 0));
    assert_eq!(synced(by_source(&reports, "c")), (0, 1, 1, 0));
    let broken = by_source(&reports, "broken");
    assert_eq!(broken.destination_id, "broken-synced-from-laptop");
    assert!(matches!(&broken.outcome, SyncOutcome::Failed { cause: StoreError::BackendError(_) }));
    assert_eq!(dest.get_event_count("broken-synced-from-laptop", None, None).unwrap(), 0);
    assert_eq!(dest.get_event_count("c-synced-from-laptop", None, None).unwrap(), 1);
}

#[test]
fn interrupted_transfer_is_taken_up_by_the_next_pass() {
    let source = source_with(
        "b",
        "laptop",
        vec![event(0, 0, "a"), event(10, 0, "b"), event(20, 0, "c"), event(30, 0, "d")],
    );
    let mut dest = Scripted::over(MemoryStore::new());
    dest.writes_before_failure.set(Some(2));
    let reports = sync_datastores(&source, &mut dest).unwrap();
    assert!(matches!(&reports[0].outcome, SyncOutcome::Failed { cause: StoreError::BackendError(_) }));
    assert_eq!(
        shape(&dest.inner.get_events("b-synced-from-laptop", None, None, None).unwrap()),
        vec![row(0, 0, "a"), row(10, 0, "b")]
    );
    dest.writes_before_failure.set(None);
    let reports = sync_datastores(&source, &mut dest).unwrap();
    assert_eq!(synced(&reports[0]), (2, 4, 2, 0));
    assert_eq!(
        shape(&dest.inner.get_events("b-synced-from-laptop", None, None, None).unwrap()),
        vec![row(0, 0, "a"), row(10, 0, "b"), row(20, 0, "c"), row(30, 0, "d")]
    );
}

#[test]
fn malformed_source_records_are_skipped_and_counted() {
    let source = source_with(
        "b",
        "laptop",
        vec![event(0, 0, "a"), event(5, -3, "backwards"), event(10, 0, "b"), event(i64::MAX, 1, "endless")],
    );
    let mut dest = MemoryStore::new();
    let reports = sync_datastores(&source, &mut dest).unwrap();
    assert_eq!(synced(&reports[0]), (0, 2, 2, 2));
    assert_eq!(
        shape(&dest.get_events("b-synced-from-laptop", None, None, None).unwrap()),
        vec![row(0, 0, "a"), row(10, 0, "b")]
    );
    match &reports[0].outcome {
        SyncOutcome::Synced { skipped, .. } => {
            assert_eq!(shape(skipped), vec![row(5, -3, "backwards"), row(i64::MAX, 1, "endless")]);
            assert_eq!(skipped[0].id, Some(2));
            assert_eq!(skipped[1].id, Some(4));
        }
        SyncOutcome::Failed { cause } => panic!("failed: {:?}", cause),
    }
}

#[test]
fn malformed_latest_event_fails_the_bucket() {
    let source = source_with("b", "laptop", three_events());
    let mut dest = MemoryStore::new();
    dest.create_bucket(&bucket("b-synced-from-laptop", "laptop")).unwrap();
    dest.insert_events("b-synced-from-laptop", vec![event(5, -1, "backwards")]).unwrap();
    let reports = sync_datastores(&source, &mut dest).unwrap();
    assert!(matches!(&reports[0].outcome, SyncOutcome::Failed { cause: StoreError::MalformedRecord }));
    assert_eq!(dest.get_event_count("b-synced-from-laptop", None, None).unwrap(), 1);
}

#[test]
fn bucket_unknown_to_the_source_fails_as_missing() {
    let source = MemoryStore::new();
    let mut dest = MemoryStore::new();
    let report = sync_bucket(&source, &mut dest, &bucket("ghost", "laptop"));
    assert_eq!(report.source_id, "ghost");
    assert_eq!(report.destination_id, "ghost-synced-from-laptop");
    assert!(matches!(&report.outcome, SyncOutcome::Failed { cause: StoreError::NoSuchBucket }));
    assert!(dest.get_bucket("ghost-synced-from-laptop").is_ok());
}

#[test]
fn buckets_of_several_devices_do_not_collide() {
    let laptop = source_with("b", "laptop", vec![event(0, 0, "l")]);
    let desk = source_with("b", "desk", vec![event(1, 0, "d1"), event(2, 0, "d2")]);
    let mut dest = MemoryStore::new();
    assert_eq!(synced(&sync_datastores(&laptop, &mut dest).unwrap()[0]), (0, 1, 1, 0));
    assert_eq!(synced(&sync_datastores(&desk, &mut dest).unwrap()[0]), (0, 2, 2, 0));
    assert_eq!(dest.get_buckets().unwrap().len(), 2);
    assert_eq!(dest.get_event_count("b-synced-from-laptop", None, None).unwrap(), 1);
    assert_eq!(dest.get_event_count("b-synced-from-desk", None, None).unwrap(), 2);
}

#[test]
fn empty_source_gives_empty_report() {
    let source = MemoryStore::new();
    let mut dest = MemoryStore::new();
    assert!(sync_datastores(&source, &mut dest).unwrap().is_empty());
    assert!(dest.get_buckets().unwrap().is_empty());
}

#[test]
fn buckets_with_one_mirror_share_it() {
    let mut source = source_with("b", "laptop", vec![event(0, 0, "plain")]);
    source.create_bucket(&bucket("b-synced", "laptop")).unwrap();
    source.insert_events("b-synced", vec![event(5, 0, "marked")]).unwrap();
    let mut dest = MemoryStore::new();
    let reports = sync_datastores(&source, &mut dest).unwrap();
    assert_eq!(reports.len(), 2);
    assert!(reports.iter().all(|r| r.destination_id == "b-synced-from-laptop"));
    assert_eq!(dest.get_buckets().unwrap().len(), 1);
    assert_eq!(
        shape(&dest.get_events("b-synced-from-laptop", None, None, None).unwrap()),
        vec![row(0, 0, "plain"), row(5, 0, "marked")]
    );
    assert_eq!(synced(&reports[0]), (0, 1, 1, 0));
    assert_eq!(synced(&reports[1]), (1, 2, 1, 0));
    let again = sync_datastores(&source, &mut dest).unwrap();
    assert!(again.iter().all(|r| synced(r).2 == 0));
}
