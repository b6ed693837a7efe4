//! The contract between a pass and the stores it works on.
//!
//! A store is an opaque handle. A pass sees of it only what `AccessMethod`
//! offers, and reasons about it through `StoreState`, the buckets and events
//! that the store holds. While a handle is borrowed mutably it is the only
//! writer of its store, and a call that fails has changed nothing.

use vstd::prelude::*;
use crate::models::{bucket_views, event_views, Bucket, BucketView, Event, EventView};
use crate::timeline::{bound, inserted_all, merge_result, merge_written, queried};

verus! {

/// Why a store did not do what it was asked.
#[derive(Debug)]
pub enum StoreError {
    /// The store holds no bucket of that identifier.
    NoSuchBucket,
    /// The store already holds a bucket of that identifier.
    BucketAlreadyExists,
    /// Transport or storage failed; the message is the backend's.
    BackendError(String),
    /// A record does not have the shape it must have.
    MalformedRecord,
}

/// What a store holds of one bucket.
pub struct BucketState {
    pub info: BucketView,
    pub events: Seq<EventView>,
}

/// What a store holds: its buckets by identifier.
pub struct StoreState {
    pub buckets: Map<Seq<char>, BucketState>,
}

impl StoreState {
    /// Whether the store holds a bucket `id`.
    pub open spec fn has(self, id: Seq<char>) -> bool {
        self.buckets.contains_key(id)
    }

    /// The bucket `id` as the store describes it.
    pub open spec fn info(self, id: Seq<char>) -> BucketView {
        self.buckets[id].info
    }

    /// The events of bucket `id`, in the order the store keeps them.
    pub open spec fn events(self, id: Seq<char>) -> Seq<EventView> {
        self.buckets[id].events
    }

    /// The store with the bucket `bucket` added, holding no event.
    pub open spec fn with_bucket(self, bucket: BucketView) -> StoreState {
        StoreState {
            buckets: self.buckets.insert(
                bucket.id,
                BucketState { info: bucket, events: Seq::empty() },
            ),
        }
    }

    /// The store with the events of bucket `id` replaced.
    pub open spec fn with_events(self, id: Seq<char>, events: Seq<EventView>) -> StoreState {
        StoreState {
            buckets: self.buckets.insert(id, BucketState { info: self.buckets[id].info, events }),
        }
    }

    /// Whether `listing` names every bucket of the store, once each, as the
    /// store describes it.
    pub open spec fn listed_by(self, listing: Seq<BucketView>) -> bool {
        &&& forall|i: int|
            0 <= i < listing.len() ==> self.has(#[trigger] listing[i].id) && self.info(
                listing[i].id,
            ) == listing[i]
        &&& forall|i: int, j: int|
            0 <= i < j < listing.len() ==> listing[i].id != listing[j].id
        &&& forall|id: Seq<char>|
            self.has(id) ==> exists|i: int| 0 <= i < listing.len() && #[trigger] listing[i].id == id
    }
}

/// The operations a pass needs of a store, and what each of them does to
/// what the store holds. Any of them may fail with a `BackendError`, and
/// with no other error than those its contract names.
///
/// Instants and spans are counted in nanoseconds.
pub trait AccessMethod {
    /// What the store holds. Contracts and proofs speak of it; it is never
    /// computed, and an implementation outside this library gives it a body
    /// that does not return.
    spec fn state(&self) -> StoreState;

    /// All buckets of the store.
    fn get_buckets(&self) -> (r: Result<Vec<Bucket>, StoreError>)
        ensures
            match r {
                Ok(buckets) => self.state().listed_by(bucket_views(buckets@)),
                Err(e) => e is BackendError,
            },
    ;

    /// The bucket `bucket_id` as the store describes it; `NoSuchBucket`
    /// where the store holds none.
    fn get_bucket(&self, bucket_id: &str) -> (r: Result<Bucket, StoreError>)
        ensures
            match r {
                Ok(bucket) => self.state().has(bucket_id@) && bucket@ == self.state().info(
                    bucket_id@,
                ),
                Err(StoreError::NoSuchBucket) => !self.state().has(bucket_id@),
                Err(e) => e is BackendError,
            },
    ;

    /// Creates `bucket`, empty; `BucketAlreadyExists` where the store
    /// holds a bucket of that identifier.
    fn create_bucket(&mut self, bucket: &Bucket) -> (r: Result<(), StoreError>)
        ensures
            ({
                let before = old(self).state();
                let after = final(self).state();
                match r {
                    Ok(()) => !before.has(bucket.id@) && after == before.with_bucket(bucket@),
                    Err(StoreError::BucketAlreadyExists) => before.has(bucket.id@) && after
                        == before,
                    Err(e) => e is BackendError && after == before,
                }
            }),
    ;

    /// The events of bucket `bucket_id` that start at or after `start` and
    /// before `end`, in the order of their start; with a `limit`, no more
    /// than that many, the most recent ones.
    fn get_events(
        &self,
        bucket_id: &str,
        start: Option<i64>,
        end: Option<i64>,
        limit: Option<u64>,
    ) -> (r: Result<Vec<Event>, StoreError>)
        ensures
            match r {
                Ok(events) => self.state().has(bucket_id@) && event_views(events@) == queried(
                    self.state().events(bucket_id@),
                    bound(start),
                    bound(end),
                    limit,
                ),
                Err(StoreError::NoSuchBucket) => !self.state().has(bucket_id@),
                Err(e) => e is BackendError,
            },
    ;

    /// Adds `events` to bucket `bucket_id` without merging any of them.
    fn insert_events(&mut self, bucket_id: &str, events: Vec<Event>) -> (r: Result<
        (),
        StoreError,
    >)
        ensures
            ({
                let before = old(self).state();
                let after = final(self).state();
                match r {
                    Ok(()) => before.has(bucket_id@) && after == before.with_events(
                        bucket_id@,
                        inserted_all(before.events(bucket_id@), event_views(events@)),
                    ),
                    Err(StoreError::NoSuchBucket) => !before.has(bucket_id@) && after == before,
                    Err(e) => e is BackendError && after == before,
                }
            }),
    ;

    /// How many events of bucket `bucket_id` start at or after `start` and
    /// before `end`.
    fn get_event_count(&self, bucket_id: &str, start: Option<i64>, end: Option<i64>) -> (r: Result<
        i64,
        StoreError,
    >)
        ensures
            match r {
                Ok(count) => self.state().has(bucket_id@) && count == queried(
                    self.state().events(bucket_id@),
                    bound(start),
                    bound(end),
                    None,
                ).len(),
                Err(StoreError::NoSuchBucket) => !self.state().has(bucket_id@),
                Err(e) => e is BackendError,
            },
    ;

    /// The merging write. Where the latest event of the bucket starts no
    /// later than `event` and ends no earlier than `pulsetime` before
    /// `event` starts, that event is drawn out to cover `event` and handed
    /// back; otherwise `event` is added as it is and handed back.
    ///
    /// The record carries no identifier: those of another store mean
    /// nothing here, and the store gives the record its own.
    fn heartbeat(&mut self, bucket_id: &str, event: Event, pulsetime: i64) -> (r: Result<
        Event,
        StoreError,
    >)
        requires
            event.id is None,
        ensures
            ({
                let before = old(self).state();
                let after = final(self).state();
                let held = before.events(bucket_id@);
                match r {
                    Ok(written) => {
                        &&& before.has(bucket_id@)
                        &&& after == before.with_events(
                            bucket_id@,
                            merge_written(held, event@, pulsetime as int),
                        )
                        &&& written@ == merge_result(held, event@, pulsetime as int)
                    },
                    Err(StoreError::NoSuchBucket) => !before.has(bucket_id@) && after == before,
                    Err(e) => e is BackendError && after == before,
                }
            }),
    ;
}

} // verus!
