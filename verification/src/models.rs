//! Buckets and events, and the mathematical values they stand for.

use vstd::prelude::*;
use crate::json::{clone_object, json_entries, JsonEntries, JsonObject};

verus! {

/// A named event log.
#[derive(Debug)]
pub struct Bucket {
    /// Unique within a store.
    pub id: String,
    /// Free-form category of the events in the bucket.
    pub bucket_type: String,
    /// The device the events originate from.
    pub hostname: String,
    /// The application that recorded the events.
    pub client: String,
    /// Provenance and free-form tags.
    pub metadata: JsonObject,
}

/// The value of a bucket.
pub struct BucketView {
    pub id: Seq<char>,
    pub bucket_type: Seq<char>,
    pub hostname: Seq<char>,
    pub client: Seq<char>,
    pub metadata: JsonEntries,
}

impl View for Bucket {
    type V = BucketView;

    open spec fn view(&self) -> BucketView {
        BucketView {
            id: self.id@,
            bucket_type: self.bucket_type@,
            hostname: self.hostname@,
            client: self.client@,
            metadata: json_entries(self.metadata),
        }
    }
}

impl Bucket {
    /// A copy of the bucket.
    pub fn duplicate(&self) -> (copy: Bucket)
        ensures
            copy@ == self@,
    {
        Bucket {
            id: self.id.clone(),
            bucket_type: self.bucket_type.clone(),
            hostname: self.hostname.clone(),
            client: self.client.clone(),
            metadata: clone_object(&self.metadata),
        }
    }
}

/// One record of a bucket. Instants and spans are counted in nanoseconds,
/// instants from the Unix epoch.
#[derive(Debug)]
pub struct Event {
    /// The identifier the holding store gave the record; absent on a record
    /// that no store holds yet. It means nothing to any other store.
    pub id: Option<i64>,
    /// When the event starts.
    pub timestamp: i64,
    /// How long the event lasts.
    pub duration: i64,
    /// Application-defined payload.
    pub data: JsonObject,
}

/// The value of an event: what identifies it across stores. The store-local
/// identifier is no part of it.
pub struct EventView {
    pub timestamp: int,
    pub duration: int,
    pub data: JsonEntries,
}

impl EventView {
    /// The instant at which the event ends.
    pub open spec fn end(self) -> int {
        self.timestamp + self.duration
    }

    /// The shape a record must have to be transferred: it does not run
    /// backwards, and its end is an instant a store can hold.
    pub open spec fn well_formed(self) -> bool {
        self.duration >= 0 && self.end() <= i64::MAX
    }
}

impl View for Event {
    type V = EventView;

    open spec fn view(&self) -> EventView {
        EventView {
            timestamp: self.timestamp as int,
            duration: self.duration as int,
            data: json_entries(self.data),
        }
    }
}

/// The values of a sequence of events, in the same order.
pub open spec fn event_views(events: Seq<Event>) -> Seq<EventView> {
    events.map_values(|e: Event| e@)
}

/// The values of a sequence of buckets, in the same order.
pub open spec fn bucket_views(buckets: Seq<Bucket>) -> Seq<BucketView> {
    buckets.map_values(|b: Bucket| b@)
}

impl Event {
    /// A copy of the event, identifier included.
    pub fn duplicate(&self) -> (copy: Event)
        ensures
            copy@ == self@,
            copy.id == self.id,
            copy.timestamp == self.timestamp,
            copy.duration == self.duration,
    {
        Event {
            id: self.id,
            timestamp: self.timestamp,
            duration: self.duration,
            data: clone_object(&self.data),
        }
    }

    /// Whether the record has the shape that a transfer asks for.
    pub fn is_well_formed(&self) -> (ok: bool)
        ensures
            ok == self@.well_formed(),
    {
        self.duration >= 0 && self.timestamp.checked_add(self.duration).is_some()
    }

    /// The instant at which the event ends, where that instant can be held.
    pub fn end(&self) -> (end: Option<i64>)
        ensures
            end == (if i64::MIN <= self@.end() <= i64::MAX {
                Some(self@.end() as i64)
            } else {
                None
            }),
    {
        self.timestamp.checked_add(self.duration)
    }
}

} // verus!
