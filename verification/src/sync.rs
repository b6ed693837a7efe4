//! The pass: every bucket of the source is mirrored into the destination.
//!
//! For each source bucket the pass finds or creates the destination bucket,
//! looks up where the last transfer ended, fetches what the source holds
//! from there on, and writes it to the destination in the order of time. A
//! bucket that fails is reported with its cause and does not stop the pass.

use vstd::prelude::*;
use crate::models::{bucket_views, event_views, Bucket, BucketView, Event, EventView};
use crate::naming::{destination_id, mirror_bucket, mirror_id, mirror_of};
pub use crate::store::{AccessMethod, StoreError, StoreState};
use crate::timeline::{
    bound,
    cursor,
    lemma_latest_gives_cursor,
    malformed_only,
    merge_written_all,
    pending,
    selected,
    synced,
};
use crate::transfer::{cursor_after, prepare_events, Prepared};

verus! {

/// How the transfer of one bucket ended.
#[derive(Debug)]
pub enum SyncOutcome {
    /// Every pending record was written.
    Synced {
        /// From where on the source was read: the instant at which the
        /// latest event of the destination bucket ended, if it held one.
        resume_at: Option<i64>,
        /// The events of the destination bucket before the transfer.
        count_before: i64,
        /// The events of the destination bucket after the transfer.
        count_after: i64,
        /// How many events the destination bucket gained.
        delta: i64,
        /// The fetched records that were left out as malformed, for the log.
        skipped: Vec<Event>,
    },
    /// The transfer was given up.
    Failed { cause: StoreError },
}

/// What a pass reports of one source bucket.
#[derive(Debug)]
pub struct BucketReport {
    /// The source bucket.
    pub source_id: String,
    /// The bucket of the destination that mirrors it.
    pub destination_id: String,
    pub outcome: SyncOutcome,
}

/// The destination once it is sure to hold the mirror of `source`: as it
/// was if it held that bucket, else with the mirror added, empty.
pub open spec fn with_mirror(dest: StoreState, source: BucketView) -> StoreState {
    if dest.has(mirror_id(source.id, source.hostname)) {
        dest
    } else {
        dest.with_bucket(mirror_of(source))
    }
}

/// What the transfer of the bucket `source` from the store `from` does to
/// a destination that is `before`, and what it reports.
///
/// A transfer that is reported as synced has written every pending event.
/// One that is reported as failed has left the destination as it was, or
/// with the mirror in place and some first part of the pending events
/// written.
pub open spec fn bucket_synced(
    from: StoreState,
    source: BucketView,
    before: StoreState,
    report: BucketReport,
    after: StoreState,
) -> bool {
    let dest = mirror_id(source.id, source.hostname);
    let ready = with_mirror(before, source);
    let held = ready.events(dest);
    let offered = from.events(source.id);
    let incoming = pending(offered, cursor(held));
    &&& report.source_id@ == source.id
    &&& report.destination_id@ == dest
    &&& match report.outcome {
        SyncOutcome::Synced { resume_at, count_before, count_after, delta, skipped } => {
            &&& from.has(source.id)
            &&& held.len() > 0 ==> held.last().well_formed()
            &&& bound(resume_at) == cursor(held)
            &&& after == ready.with_events(dest, synced(held, offered))
            &&& count_before == held.len()
            &&& count_after == synced(held, offered).len()
            &&& delta == count_after - count_before
            &&& event_views(skipped@) == malformed_only(selected(offered, cursor(held), None))
        },
        SyncOutcome::Failed { cause } => {
            &&& after == before || exists|k: int|
                0 <= k <= incoming.len() && after == ready.with_events(
                    dest,
                    #[trigger] merge_written_all(held, incoming.take(k), 0),
                )
            &&& cause is NoSuchBucket ==> !from.has(source.id)
            &&& cause is MalformedRecord ==> held.len() > 0 && !held.last().well_formed()
            &&& !(cause is BucketAlreadyExists)
        },
    }
}

/// Whether `states` are the states that a destination runs through in a
/// pass over the buckets named in `reports`: the state before the first
/// bucket, and then the state after each of them, in their order.
pub open spec fn pass_through(
    from: StoreState,
    states: Seq<StoreState>,
    reports: Seq<BucketReport>,
) -> bool {
    &&& states.len() == reports.len() + 1
    &&& forall|i: int|
        0 <= i < reports.len() ==> bucket_synced(
            from,
            from.info(reports[i].source_id@),
            states[i],
            #[trigger] reports[i],
            states[i + 1],
        )
}

/// What a pass over the buckets named in `reports`, in that order, does to
/// a destination that is `before`: it takes it to `after` bucket by bucket.
pub open spec fn pass_synced(
    from: StoreState,
    before: StoreState,
    reports: Seq<BucketReport>,
    after: StoreState,
) -> bool {
    exists|states: Seq<StoreState>|
        {
            &&& #[trigger] pass_through(from, states, reports)
            &&& states.first() == before
            &&& states.last() == after
        }
}

/// Whether the reports name every bucket of the store, once each.
pub open spec fn reports_cover(reports: Seq<BucketReport>, from: StoreState) -> bool {
    &&& forall|i: int| 0 <= i < reports.len() ==> from.has(#[trigger] reports[i].source_id@)
    &&& forall|i: int, j: int|
        0 <= i < j < reports.len() ==> reports[i].source_id@ != reports[j].source_id@
    &&& forall|id: Seq<char>|
        from.has(id) ==> exists|i: int|
            0 <= i < reports.len() && #[trigger] reports[i].source_id@ == id
}

/// What a refused creation means to a pass. A destination that says the
/// bucket already exists has the bucket, which is all the pass wants: it
/// goes on as after a creation. Every other refusal stands.
pub fn settle_creation(created: Result<(), StoreError>) -> (settled: Result<(), StoreError>)
    ensures
        settled == (match created {
            Err(StoreError::BucketAlreadyExists) => Ok(()),
            other => other,
        }),
{
    match created {
        Err(StoreError::BucketAlreadyExists) => Ok(()),
        other => other,
    }
}

/// The bucket of `ds_to` that mirrors `bucket_from`, created if `ds_to`
/// does not hold it yet.
///
/// A bucket that is found is handed back as it is and nothing is written.
/// One that is missing is created as `mirror_bucket` makes it, and handed
/// back as the destination then describes it. A destination that refuses
/// the creation because it holds the bucket by then is asked for the bucket
/// all the same.
pub fn get_or_create_sync_bucket<D: AccessMethod>(bucket_from: &Bucket, ds_to: &mut D) -> (r:
    Result<Bucket, StoreError>)
    ensures
        ({
            let before = old(ds_to).state();
            let after = final(ds_to).state();
            let ready = with_mirror(before, bucket_from@);
            match r {
                Ok(bucket) => after == ready && bucket@ == ready.info(
                    mirror_id(bucket_from.id@, bucket_from.hostname@),
                ),
                Err(e) => e is BackendError && (after == before || after == ready),
            }
        }),
{
    let new_id = destination_id(bucket_from);
    match ds_to.get_bucket(new_id.as_str()) {
        Ok(bucket) => Ok(bucket),
        Err(StoreError::NoSuchBucket) => {
            let bucket_new = mirror_bucket(bucket_from);
            match settle_creation(ds_to.create_bucket(&bucket_new)) {
                Ok(()) => ds_to.get_bucket(new_id.as_str()),
                Err(e) => Err(e),
            }
        },
        Err(e) => Err(e),
    }
}

/// Where the next transfer into bucket `bucket_id` of `ds_to` takes up: at
/// the end of its latest event; nowhere in particular (the whole history is
/// due) if the bucket holds no event or does not exist. A latest event
/// that is malformed, and any failure of the store, is an error.
pub fn resume_point<D: AccessMethod>(ds_to: &D, bucket_id: &str) -> (r: Result<
    Option<i64>,
    StoreError,
>)
    ensures
        ({
            let held = if ds_to.state().has(bucket_id@) {
                ds_to.state().events(bucket_id@)
            } else {
                Seq::empty()
            };
            match r {
                Ok(at) => bound(at) == cursor(held) && (held.len() > 0
                    ==> held.last().well_formed()),
                Err(StoreError::MalformedRecord) => held.len() > 0 && !held.last().well_formed(),
                Err(e) => e is BackendError,
            }
        }),
{
    match ds_to.get_events(bucket_id, None, None, Some(1)) {
        Ok(latest) => {
            proof {
                lemma_latest_gives_cursor(ds_to.state().events(bucket_id@));
            }
            cursor_after(&latest)
        },
        Err(StoreError::NoSuchBucket) => Ok(None),
        Err(e) => Err(e),
    }
}

/// The report of a bucket whose transfer was given up.
fn failed(source_id: String, destination_id: String, cause: StoreError) -> (report: BucketReport)
    ensures
        report.source_id == source_id,
        report.destination_id == destination_id,
        report.outcome == (SyncOutcome::Failed { cause }),
{
    BucketReport { source_id, destination_id, outcome: SyncOutcome::Failed { cause } }
}

/// Mirrors one bucket: brings the bucket of `ds_to` that mirrors
/// `bucket_from` up to what `ds_from` holds of `bucket_from`.
///
/// The events of the source are asked for from the point at which the
/// latest event of the destination bucket ends. What comes back is made
/// ready by `prepare_events` and written event by event with a merge
/// window of zero. The first call that fails ends the transfer.
#[verifier::loop_isolation(false)]
pub fn sync_bucket<S: AccessMethod, D: AccessMethod>(
    ds_from: &S,
    ds_to: &mut D,
    bucket_from: &Bucket,
) -> (report: BucketReport)
    ensures
        bucket_synced(
            ds_from.state(),
            bucket_from@,
            old(ds_to).state(),
            report,
            final(ds_to).state(),
        ),
{
    let ghost from = ds_from.state();
    let ghost before = ds_to.state();
    let ghost dest = mirror_id(bucket_from.id@, bucket_from.hostname@);
    let ghost ready = with_mirror(before, bucket_from@);
    let ghost held = ready.events(dest);
    let ghost offered = from.events(bucket_from.id@);
    let ghost incoming = pending(offered, cursor(held));
    let source_id = bucket_from.id.clone();
    let new_id = destination_id(bucket_from);
    proof {
        assert(ready.has(dest));
        assert(ready.with_events(dest, held).buckets =~= ready.buckets);
        assert(incoming.take(0) =~= Seq::<EventView>::empty());
        assert(ready == ready.with_events(dest, merge_written_all(held, incoming.take(0), 0)));
    }
    match get_or_create_sync_bucket(bucket_from, ds_to) {
        Ok(_) => {},
        Err(e) => {
            return failed(source_id, new_id, e);
        },
    }
    let count_before = match ds_to.get_event_count(new_id.as_str(), None, None) {
        Ok(count) => count,
        Err(e) => {
            return failed(source_id, new_id, e);
        },
    };
    let resume_at = match resume_point(&*ds_to, new_id.as_str()) {
        Ok(at) => at,
        Err(e) => {
            return failed(source_id, new_id, e);
        },
    };
    let fetched = match ds_from.get_events(bucket_from.id.as_str(), resume_at, None, None) {
        Ok(events) => events,
        Err(e) => {
            return failed(source_id, new_id, e);
        },
    };
    let prepared = prepare_events(fetched);
    proof {
        lemma_latest_gives_cursor(held);
        assert(event_views(prepared.events@) == incoming);
    }
    let Prepared { events, malformed } = prepared;
    let ghost batch = events@;
    for event in writes: events.into_iter()
        invariant
            writes.seq() == batch,
            event_views(batch) == incoming,
            forall|i: int| 0 <= i < batch.len() ==> batch[i].id is None,
            ready.has(dest),
            new_id@ == dest,
            ds_to.state() == ready.with_events(
                dest,
                merge_written_all(held, incoming.take(writes.index() as int), 0),
            ),
    {
        let ghost k = writes.index() as int;
        proof {
            assert(incoming.take(k + 1).drop_last() =~= incoming.take(k));
            assert(incoming.take(k + 1).last() == event@);
        }
        match ds_to.heartbeat(new_id.as_str(), event, 0) {
            Ok(_) => {},
            Err(e) => {
                proof {
                    assert(ds_to.state().has(dest));
                    assert(ds_to.state() == ready.with_events(
                        dest,
                        merge_written_all(held, incoming.take(k), 0),
                    ));
                }
                return failed(source_id, new_id, e);
            },
        }
        proof {
            assert(ds_to.state().buckets =~= ready.with_events(
                dest,
                merge_written_all(held, incoming.take(k + 1), 0),
            ).buckets);
        }
    }
    proof {
        assert(incoming.take(incoming.len() as int) =~= incoming);
    }
    let count_after = match ds_to.get_event_count(new_id.as_str(), None, None) {
        Ok(count) => count,
        Err(e) => {
            return failed(source_id, new_id, e);
        },
    };
    proof {
        lemma_latest_gives_cursor(synced(held, offered));
    }
    BucketReport {
        source_id,
        destination_id: new_id,
        outcome: SyncOutcome::Synced {
            resume_at,
            count_before,
            count_after,
            delta: count_after - count_before,
            skipped: malformed,
        },
    }
}

/// Syncs all buckets of `ds_from` to `ds_to`, each into the bucket that
/// mirrors it, and reports how each of them fared, in the order in which
/// `ds_from` lists them. A bucket that fails does not stop the pass. The
/// pass itself fails only if `ds_from` cannot list its buckets, and has
/// then written nothing.
#[verifier::loop_isolation(false)]
pub fn sync_datastores<S: AccessMethod, D: AccessMethod>(ds_from: &S, ds_to: &mut D) -> (r: Result<
    Vec<BucketReport>,
    StoreError,
>)
    ensures
        match r {
            Ok(reports) => reports_cover(reports@, ds_from.state()) && pass_synced(
                ds_from.state(),
                old(ds_to).state(),
                reports@,
                final(ds_to).state(),
            ),
            Err(e) => e is BackendError && final(ds_to).state() == old(ds_to).state(),
        },
{
    let buckets_from = match ds_from.get_buckets() {
        Ok(buckets) => buckets,
        Err(e) => {
            return Err(e);
        },
    };
    let ghost from = ds_from.state();
    let ghost before = ds_to.state();
    let ghost listing = bucket_views(buckets_from@);
    let ghost mut states = seq![before];
    let mut reports: Vec<BucketReport> = Vec::new();
    let mut i: usize = 0;
    while i < buckets_from.len()
        invariant
            i <= buckets_from.len(),
            reports.len() == i,
            from == ds_from.state(),
            listing == bucket_views(buckets_from@),
            from.listed_by(listing),
            forall|k: int| 0 <= k < i ==> (#[trigger] reports[k]).source_id@ == listing[k].id,
            pass_through(from, states, reports@),
            states.first() == before,
            states.last() == ds_to.state(),
        decreases buckets_from.len() - i,
    {
        let report = sync_bucket(ds_from, ds_to, &buckets_from[i]);
        reports.push(report);
        proof {
            assert(listing[i as int] == buckets_from[i as int]@);
            assert(from.has(listing[i as int].id));
            assert(from.info(report.source_id@) == buckets_from[i as int]@);
            states = states.push(ds_to.state());
        }
        i = i + 1;
    }
    proof {
        assert(pass_through(from, states, reports@));
        assert forall|id: Seq<char>| from.has(id) implies exists|k: int|
            0 <= k < reports.len() && #[trigger] reports[k].source_id@ == id by {
            let k = choose|k: int| 0 <= k < listing.len() && #[trigger] listing[k].id == id;
            assert(reports[k].source_id@ == id);
        }
    }
    Ok(reports)
}

/// What a store holds of one bucket, in a line.
#[derive(Debug)]
pub struct BucketSummary {
    /// The bucket.
    pub id: String,
    /// How many events it holds, or why that could not be learnt.
    pub events: Result<i64, StoreError>,
}

/// Whether the summaries name every bucket of the store, once each, with
/// the number of its events wherever a number is given.
pub open spec fn summarised_by(store: StoreState, summaries: Seq<BucketSummary>) -> bool {
    &&& forall|i: int|
        0 <= i < summaries.len() ==> store.has(#[trigger] summaries[i].id@) && (match summaries[i].events {
            Ok(count) => count == store.events(summaries[i].id@).len(),
            Err(e) => e is BackendError,
        })
    &&& forall|i: int, j: int|
        0 <= i < j < summaries.len() ==> summaries[i].id@ != summaries[j].id@
    &&& forall|id: Seq<char>|
        store.has(id) ==> exists|i: int|
            0 <= i < summaries.len() && #[trigger] summaries[i].id@ == id
}

/// The buckets of a store with the number of events in each, for the log.
/// Fails only if the store cannot list its buckets.
pub fn log_buckets<D: AccessMethod>(ds: &D) -> (r: Result<Vec<BucketSummary>, StoreError>)
    ensures
        match r {
            Ok(summaries) => summarised_by(ds.state(), summaries@),
            Err(e) => e is BackendError,
        },
{
    let buckets = match ds.get_buckets() {
        Ok(buckets) => buckets,
        Err(e) => {
            return Err(e);
        },
    };
    let ghost store = ds.state();
    let ghost listing = bucket_views(buckets@);
    let mut summaries: Vec<BucketSummary> = Vec::new();
    let mut i: usize = 0;
    while i < buckets.len()
        invariant
            i <= buckets.len(),
            summaries.len() == i,
            store == ds.state(),
            listing == bucket_views(buckets@),
            store.listed_by(listing),
            forall|k: int|
                0 <= k < i ==> (#[trigger] summaries[k]).id@ == listing[k].id && (match summaries[k].events {
                    Ok(count) => count == store.events(listing[k].id).len(),
                    Err(e) => e is BackendError,
                }),
        decreases buckets.len() - i,
    {
        let bucket = &buckets[i];
        let events = ds.get_event_count(bucket.id.as_str(), None, None);
        proof {
            assert(listing[i as int] == bucket@);
            assert(store.has(listing[i as int].id));
            lemma_latest_gives_cursor(store.events(bucket.id@));
        }
        summaries.push(BucketSummary { id: bucket.id.clone(), events });
        i = i + 1;
    }
    proof {
        assert forall|id: Seq<char>| store.has(id) implies exists|k: int|
            0 <= k < summaries.len() && #[trigger] summaries[k].id@ == id by {
            let k = choose|k: int| 0 <= k < listing.len() && #[trigger] listing[k].id == id;
            assert(summaries[k].id@ == id);
        }
        assert forall|a: int, b: int| 0 <= a < b < summaries.len() implies summaries[a].id@
            != summaries[b].id@ by {
            assert(listing[a].id != listing[b].id);
        }
        assert forall|k: int| 0 <= k < summaries.len() implies store.has(
            #[trigger] summaries[k].id@,
        ) by {
            assert(store.has(listing[k].id));
        }
    }
    Ok(summaries)
}

} // verus!
