//! A store that keeps its buckets in memory.
//!
//! It does to its buckets exactly what `AccessMethod` says a store does,
//! and fails only where an identifier or a span can no longer be counted.

use vstd::prelude::*;
use crate::json::clone_object;
use crate::models::{bucket_views, event_views, Bucket, Event, EventView};
use crate::store::{AccessMethod, BucketState, StoreError, StoreState};
use crate::timeline::{absorbs, bound, inserted_all, merged, queried, selected};
use crate::transfer::{insert_in_order, query_events, starts_within};

verus! {

/// One bucket and its events, in the order of their start.
struct Shelf {
    info: Bucket,
    events: Vec<Event>,
}

/// A store in memory.
pub struct MemoryStore {
    shelves: Vec<Shelf>,
    /// The identifier that the next new event gets.
    next_id: i64,
}

/// Whether one of the shelves is that of bucket `id`.
spec fn holds(shelves: Seq<Shelf>, id: Seq<char>) -> bool {
    exists|i: int| 0 <= i < shelves.len() && (#[trigger] shelves[i]).info.id@ == id
}

/// A shelf of bucket `id`.
spec fn index_of(shelves: Seq<Shelf>, id: Seq<char>) -> int {
    choose|i: int| 0 <= i < shelves.len() && (#[trigger] shelves[i]).info.id@ == id
}

/// What a shelf amounts to.
spec fn shelved(shelf: Shelf) -> BucketState {
    BucketState { info: shelf.info@, events: event_views(shelf.events@) }
}

/// What the shelves amount to.
spec fn state_of(shelves: Seq<Shelf>) -> StoreState {
    StoreState {
        buckets: Map::new(
            |id: Seq<char>| holds(shelves, id),
            |id: Seq<char>| shelved(shelves[index_of(shelves, id)]),
        ),
    }
}

/// Whether no two shelves are of the same bucket.
spec fn distinct(shelves: Seq<Shelf>) -> bool {
    forall|i: int, j: int|
        0 <= i < j < shelves.len() ==> (#[trigger] shelves[i]).info.id@ != (
        #[trigger] shelves[j]).info.id@
}

/// Among distinct shelves, the shelf of a bucket is found by its identifier.
proof fn lemma_shelf_found(shelves: Seq<Shelf>, i: int)
    requires
        distinct(shelves),
        0 <= i < shelves.len(),
    ensures
        holds(shelves, shelves[i].info.id@),
        index_of(shelves, shelves[i].info.id@) == i,
        state_of(shelves).has(shelves[i].info.id@),
        state_of(shelves).buckets[shelves[i].info.id@] == shelved(shelves[i]),
{
    let id = shelves[i].info.id@;
    let j = index_of(shelves, id);
    assert(0 <= j < shelves.len() && shelves[j].info.id@ == id);
    if j < i {
        assert(shelves[j].info.id@ != shelves[i].info.id@);
    } else if i < j {
        assert(shelves[i].info.id@ != shelves[j].info.id@);
    }
}

/// A new shelf for a bucket that has none adds that bucket and changes no
/// other.
proof fn lemma_shelf_added(shelves: Seq<Shelf>, shelf: Shelf)
    requires
        distinct(shelves),
        !holds(shelves, shelf.info.id@),
        shelf.events@.len() == 0,
    ensures
        distinct(shelves.push(shelf)),
        state_of(shelves.push(shelf)) == state_of(shelves).with_bucket(shelf.info@),
{
    let grown = shelves.push(shelf);
    assert forall|i: int, j: int| 0 <= i < j < grown.len() implies (#[trigger] grown[i]).info.id@
        != (#[trigger] grown[j]).info.id@ by {
        if j == shelves.len() {
            assert(shelves[i].info.id@ != shelf.info.id@);
        } else {
            assert(shelves[i].info.id@ != shelves[j].info.id@);
        }
    }
    assert forall|id: Seq<char>| holds(grown, id) <==> (holds(shelves, id) || id
        == shelf.info.id@) by {
        if holds(shelves, id) {
            let i = index_of(shelves, id);
            assert(grown[i].info.id@ == id);
        }
        if id == shelf.info.id@ {
            assert(grown[shelves.len() as int].info.id@ == id);
        }
        if holds(grown, id) {
            let i = index_of(grown, id);
            if i < shelves.len() {
                assert(shelves[i].info.id@ == id);
            }
        }
    }
    assert forall|id: Seq<char>| holds(grown, id) implies #[trigger] state_of(grown).buckets[id]
        == state_of(shelves).with_bucket(shelf.info@).buckets[id] by {
        let i = index_of(grown, id);
        lemma_shelf_found(grown, i);
        if i < shelves.len() {
            assert(shelves[i].info.id@ == id);
            lemma_shelf_found(shelves, i);
        } else {
            assert(event_views(shelf.events@) =~= Seq::<EventView>::empty());
        }
    }
    assert(state_of(grown).buckets =~= state_of(shelves).with_bucket(shelf.info@).buckets);
}

/// New events on the shelf of a bucket change the events of that bucket
/// and nothing else.
proof fn lemma_shelf_refilled(shelves: Seq<Shelf>, i: int, shelf: Shelf)
    requires
        distinct(shelves),
        0 <= i < shelves.len(),
        shelf.info@ == shelves[i].info@,
    ensures
        distinct(shelves.update(i, shelf)),
        state_of(shelves.update(i, shelf)) == state_of(shelves).with_events(
            shelves[i].info.id@,
            event_views(shelf.events@),
        ),
{
    let changed = shelves.update(i, shelf);
    let target = shelves[i].info.id@;
    assert forall|a: int| 0 <= a < shelves.len() implies (#[trigger] changed[a]).info.id@
        == shelves[a].info.id@ by {}
    assert forall|a: int, b: int| 0 <= a < b < changed.len() implies (#[trigger] changed[a]).info.id@
        != (#[trigger] changed[b]).info.id@ by {
        assert(shelves[a].info.id@ != shelves[b].info.id@);
    }
    assert forall|id: Seq<char>| holds(changed, id) <==> holds(shelves, id) by {
        if holds(shelves, id) {
            let a = index_of(shelves, id);
            assert(changed[a].info.id@ == id);
        }
        if holds(changed, id) {
            let a = index_of(changed, id);
            assert(shelves[a].info.id@ == id);
        }
    }
    lemma_shelf_found(shelves, i);
    assert forall|id: Seq<char>| holds(changed, id) implies #[trigger] state_of(changed).buckets[id]
        == state_of(shelves).with_events(target, event_views(shelf.events@)).buckets[id] by {
        let a = index_of(changed, id);
        lemma_shelf_found(changed, a);
        assert(shelves[a].info.id@ == id);
        lemma_shelf_found(shelves, a);
    }
    assert(state_of(changed).buckets =~= state_of(shelves).with_events(
        target,
        event_views(shelf.events@),
    ).buckets);
}

impl MemoryStore {
    #[verifier::type_invariant]
    spec fn well_formed(self) -> bool {
        distinct(self.shelves@) && self.next_id >= 1
    }

    /// How many more events the store can give an identifier.
    pub closed spec fn spare_identifiers(&self) -> int {
        i64::MAX - self.next_id
    }

    /// A store without buckets.
    pub fn new() -> (store: MemoryStore)
        ensures
            store.state().buckets == Map::<Seq<char>, BucketState>::empty(),
            store.spare_identifiers() == i64::MAX - 1,
    {
        let store = MemoryStore { shelves: Vec::new(), next_id: 1 };
        proof {
            assert(store.state().buckets =~= Map::<Seq<char>, BucketState>::empty());
        }
        store
    }

    /// Takes the shelves out, to be put back once they are changed.
    fn take_shelves(&mut self) -> (shelves: Vec<Shelf>)
        ensures
            shelves == old(self).shelves,
            final(self).shelves@.len() == 0,
            final(self).next_id == old(self).next_id,
    {
        proof {
            use_type_invariant(&*self);
        }
        let mut shelves: Vec<Shelf> = Vec::new();
        core::mem::swap(&mut self.shelves, &mut shelves);
        shelves
    }

    /// The shelf of bucket `id`, if there is one.
    fn find(&self, id: &str) -> (r: Option<usize>)
        ensures
            match r {
                Some(i) => i < self.shelves.len() && self.shelves[i as int].info.id@ == id@,
                None => !holds(self.shelves@, id@),
            },
    {
        let wanted = id.to_owned();
        let mut i: usize = 0;
        while i < self.shelves.len()
            invariant
                i <= self.shelves.len(),
                wanted@ == id@,
                forall|j: int| 0 <= j < i ==> (#[trigger] self.shelves[j]).info.id@ != id@,
            decreases self.shelves.len() - i,
        {
            if self.shelves[i].info.id == wanted {
                return Some(i);
            }
            i = i + 1;
        }
        None
    }
}

impl AccessMethod for MemoryStore {
    closed spec fn state(&self) -> StoreState {
        state_of(self.shelves@)
    }

    /// Never fails.
    fn get_buckets(&self) -> (r: Result<Vec<Bucket>, StoreError>)
        ensures
            r is Ok,
    {
        let mut buckets: Vec<Bucket> = Vec::new();
        let mut i: usize = 0;
        proof {
            use_type_invariant(self);
        }
        while i < self.shelves.len()
            invariant
                i <= self.shelves.len(),
                buckets.len() == i,
                forall|j: int| 0 <= j < i ==> (#[trigger] buckets[j])@ == self.shelves[j].info@,
            decreases self.shelves.len() - i,
        {
            buckets.push(self.shelves[i].info.duplicate());
            i = i + 1;
        }
        proof {
            let listing = bucket_views(buckets@);
            let shelves = self.shelves@;
            assert forall|j: int| 0 <= j < listing.len() implies self.state().has(
                #[trigger] listing[j].id,
            ) && self.state().info(listing[j].id) == listing[j] by {
                lemma_shelf_found(shelves, j);
            }
            assert forall|a: int, b: int| 0 <= a < b < listing.len() implies listing[a].id
                != listing[b].id by {
                assert(shelves[a].info.id@ != shelves[b].info.id@);
            }
            assert forall|id: Seq<char>| self.state().has(id) implies exists|j: int|
                0 <= j < listing.len() && #[trigger] listing[j].id == id by {
                let j = index_of(shelves, id);
                assert(listing[j].id == id);
            }
        }
        Ok(buckets)
    }

    /// Fails only for a bucket that the store does not hold.
    fn get_bucket(&self, bucket_id: &str) -> (r: Result<Bucket, StoreError>)
        ensures
            r is Ok <==> self.state().has(bucket_id@),
    {
        proof {
            use_type_invariant(self);
        }
        match self.find(bucket_id) {
            Some(i) => {
                proof {
                    lemma_shelf_found(self.shelves@, i as int);
                }
                Ok(self.shelves[i].info.duplicate())
            },
            None => Err(StoreError::NoSuchBucket),
        }
    }

    /// Fails only for a bucket that the store holds already.
    fn create_bucket(&mut self, bucket: &Bucket) -> (r: Result<(), StoreError>)
        ensures
            r is Ok <==> !old(self).state().has(bucket.id@),
            final(self).spare_identifiers() == old(self).spare_identifiers(),
    {
        proof {
            use_type_invariant(&*self);
        }
        match self.find(bucket.id.as_str()) {
            Some(i) => {
                proof {
                    lemma_shelf_found(self.shelves@, i as int);
                }
                Err(StoreError::BucketAlreadyExists)
            },
            None => {
                let shelf = Shelf { info: bucket.duplicate(), events: Vec::new() };
                proof {
                    lemma_shelf_added(self.shelves@, shelf);
                }
                let mut shelves = self.take_shelves();
                shelves.push(shelf);
                self.shelves = shelves;
                Ok(())
            },
        }
    }

    fn get_events(
        &self,
        bucket_id: &str,
        start: Option<i64>,
        end: Option<i64>,
        limit: Option<u64>,
    ) -> (r: Result<Vec<Event>, StoreError>)
        ensures
            r is Ok <==> self.state().has(bucket_id@),
    {
        proof {
            use_type_invariant(self);
        }
        match self.find(bucket_id) {
            Some(i) => {
                proof {
                    lemma_shelf_found(self.shelves@, i as int);
                }
                Ok(query_events(&self.shelves[i].events, start, end, limit))
            },
            None => Err(StoreError::NoSuchBucket),
        }
    }

    /// Gives every event an identifier of its own, whatever identifier it
    /// came with. Fails only for a bucket that the store does not hold, or
    /// where the identifiers do not go round.
    fn insert_events(&mut self, bucket_id: &str, events: Vec<Event>) -> (r: Result<
        (),
        StoreError,
    >)
        ensures
            r is Ok <==> old(self).state().has(bucket_id@) && events.len() <= old(
                self,
            ).spare_identifiers(),
            r is Ok ==> final(self).spare_identifiers() == old(self).spare_identifiers()
                - events.len(),
            r is Err ==> final(self).spare_identifiers() == old(self).spare_identifiers(),
    {
        proof {
            use_type_invariant(&*self);
        }
        match self.find(bucket_id) {
            Some(i) => {
                proof {
                    lemma_shelf_found(self.shelves@, i as int);
                }
                if events.len() as u64 > i64::MAX as u64 || self.next_id > i64::MAX
                    - events.len() as i64 {
                    return Err(StoreError::BackendError("out of event identifiers".to_owned()));
                }
                let ghost held = event_views(self.shelves[i as int].events@);
                let ghost before = self.shelves@;
                let first_id = self.next_id;
                let mut next_id = first_id;
                let mut shelves = self.take_shelves();
                let mut shelf = shelves.remove(i);
                let ghost batch = events@;
                proof {
                    assert(event_views(batch.take(0)) =~= Seq::<EventView>::empty());
                }
                for event in given: events.into_iter()
                    invariant
                        given.seq() == batch,
                        next_id == first_id + given.index(),
                        1 <= first_id,
                        first_id + batch.len() <= i64::MAX,
                        i < before.len(),
                        shelf.info == before[i as int].info,
                        shelves@ == before.remove(i as int),
                        event_views(shelf.events@) == inserted_all(
                            held,
                            event_views(batch.take(given.index() as int)),
                        ),
                {
                    let mut e = event;
                    e.id = Some(next_id);
                    next_id = next_id + 1;
                    proof {
                        let upto = event_views(batch.take(given.index() + 1));
                        assert(upto.drop_last() =~= event_views(batch.take(given.index() as int)));
                        assert(upto.last() == e@);
                    }
                    insert_in_order(&mut shelf.events, e);
                }
                proof {
                    assert(batch.take(batch.len() as int) =~= batch);
                    assert(before.remove(i as int).insert(i as int, shelf) =~= before.update(
                        i as int,
                        shelf,
                    ));
                    lemma_shelf_found(before, i as int);
                    lemma_shelf_refilled(before, i as int, shelf);
                }
                shelves.insert(i, shelf);
                self.shelves = shelves;
                self.next_id = next_id;
                Ok(())
            },
            None => Err(StoreError::NoSuchBucket),
        }
    }

    /// Fails only for a bucket that the store does not hold, or where the
    /// number is too large to hand back.
    fn get_event_count(&self, bucket_id: &str, start: Option<i64>, end: Option<i64>) -> (r: Result<
        i64,
        StoreError,
    >)
        ensures
            r is Ok <==> self.state().has(bucket_id@) && queried(
                self.state().events(bucket_id@),
                bound(start),
                bound(end),
                None,
            ).len() <= i64::MAX,
    {
        proof {
            use_type_invariant(self);
        }
        match self.find(bucket_id) {
            Some(i) => {
                proof {
                    lemma_shelf_found(self.shelves@, i as int);
                }
                let events = &self.shelves[i].events;
                let mut count: usize = 0;
                let mut k: usize = 0;
                proof {
                    assert(event_views(events@.take(0)) =~= Seq::<EventView>::empty());
                }
                while k < events.len()
                    invariant
                        k <= events.len(),
                        count <= k,
                        count == selected(
                            event_views(events@.take(k as int)),
                            bound(start),
                            bound(end),
                        ).len(),
                    decreases events.len() - k,
                {
                    proof {
                        let upto = event_views(events@.take(k + 1));
                        assert(upto.drop_last() =~= event_views(events@.take(k as int)));
                        assert(upto.last() == events[k as int]@);
                    }
                    if starts_within(&events[k], start, end) {
                        count = count + 1;
                    }
                    k = k + 1;
                }
                proof {
                    assert(events@.take(events.len() as int) =~= events@);
                }
                if count as u64 > i64::MAX as u64 {
                    Err(StoreError::BackendError("too many events to count".to_owned()))
                } else {
                    Ok(count as i64)
                }
            },
            None => Err(StoreError::NoSuchBucket),
        }
    }

    /// An event that is added gets an identifier of its own; one that is
    /// drawn out keeps the one it had. Fails only for a bucket that the
    /// store does not hold, where the event drawn out would last longer
    /// than can be counted, or where no identifier is left for an event to
    /// add.
    fn heartbeat(&mut self, bucket_id: &str, event: Event, pulsetime: i64) -> (r: Result<
        Event,
        StoreError,
    >)
        ensures
            ({
                let held = old(self).state().events(bucket_id@);
                let drawn = absorbs(held, event@, pulsetime as int);
                &&& r is Ok <==> old(self).state().has(bucket_id@) && (if drawn {
                    merged(held.last(), event@).duration <= i64::MAX
                } else {
                    old(self).spare_identifiers() >= 1
                })
                &&& final(self).spare_identifiers() == old(self).spare_identifiers() - (if r is Ok
                    && !drawn {
                    1int
                } else {
                    0int
                })
            }),
    {
        proof {
            use_type_invariant(&*self);
        }
        match self.find(bucket_id) {
            Some(i) => {
                let ghost before = self.shelves@;
                let ghost held = event_views(before[i as int].events@);
                proof {
                    lemma_shelf_found(before, i as int);
                }
                let n = self.shelves[i].events.len();
                if n > 0 {
                    let last = &self.shelves[i].events[n - 1];
                    proof {
                        assert(held.last() == last@);
                    }
                    let last_end: i128 = last.timestamp as i128 + last.duration as i128;
                    let event_end: i128 = event.timestamp as i128 + event.duration as i128;
                    if last.timestamp <= event.timestamp && event.timestamp as i128 <= last_end
                        + pulsetime as i128 {
                        let end = if last_end >= event_end {
                            last_end
                        } else {
                            event_end
                        };
                        let span: i128 = end - last.timestamp as i128;
                        if span < i64::MIN as i128 || span > i64::MAX as i128 {
                            return Err(
                                StoreError::BackendError("span of merged event too long".to_owned()),
                            );
                        }
                        let drawn_out = Event {
                            id: last.id,
                            timestamp: last.timestamp,
                            duration: span as i64,
                            data: clone_object(&last.data),
                        };
                        let written = drawn_out.duplicate();
                        let mut shelves = self.take_shelves();
                        let mut shelf = shelves.remove(i);
                        shelf.events.pop();
                        shelf.events.push(drawn_out);
                        proof {
                            assert(drawn_out@ == merged(held.last(), event@));
                            assert(event_views(shelf.events@) =~= held.drop_last().push(
                                drawn_out@,
                            ));
                            assert(before.remove(i as int).insert(i as int, shelf)
                                =~= before.update(i as int, shelf));
                            lemma_shelf_refilled(before, i as int, shelf);
                        }
                        shelves.insert(i, shelf);
                        self.shelves = shelves;
                        return Ok(written);
                    }
                }
                if self.next_id == i64::MAX {
                    return Err(StoreError::BackendError("out of event identifiers".to_owned()));
                }
                let stored = Event {
                    id: Some(self.next_id),
                    timestamp: event.timestamp,
                    duration: event.duration,
                    data: event.data,
                };
                let written = stored.duplicate();
                self.next_id = self.next_id + 1;
                let mut shelves = self.take_shelves();
                let mut shelf = shelves.remove(i);
                insert_in_order(&mut shelf.events, stored);
                proof {
                    assert(before.remove(i as int).insert(i as int, shelf) =~= before.update(
                        i as int,
                        shelf,
                    ));
                    lemma_shelf_refilled(before, i as int, shelf);
                }
                shelves.insert(i, shelf);
                self.shelves = shelves;
                Ok(written)
            },
            None => Err(StoreError::NoSuchBucket),
        }
    }
}

} // verus!
