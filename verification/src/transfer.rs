//! What a pass makes of the events it has fetched: where the transfer
//! takes up, and which records it hands on, in which order.

use vstd::prelude::*;
use crate::models::{event_views, Event, EventView};
use crate::store::StoreError;
use crate::timeline::{
    bound,
    cursor,
    inserted,
    malformed_only,
    queried,
    selected,
    sorted_by_time,
    well_formed_only,
    within,
};

verus! {

/// Putting `e` in at `pos` is the insertion in order, where all events from
/// `pos` on start later than `e` and the one before `pos` does not.
pub proof fn lemma_inserted_at(events: Seq<EventView>, e: EventView, pos: int)
    requires
        0 <= pos <= events.len(),
        pos > 0 ==> events[pos - 1].timestamp <= e.timestamp,
        forall|j: int| pos <= j < events.len() ==> events[j].timestamp > e.timestamp,
    ensures
        inserted(events, e) == events.insert(pos, e),
    decreases events.len() - pos,
{
    if pos == events.len() {
        assert(events.insert(pos, e) =~= events.push(e));
    } else {
        lemma_inserted_at(events.drop_last(), e, pos);
        assert(events.drop_last().insert(pos, e).push(events.last()) =~= events.insert(pos, e));
    }
}

/// Puts `e` into `events` behind every event that starts no later, looked
/// for from the end, and says where it went.
pub(crate) fn insert_in_order(events: &mut Vec<Event>, e: Event) -> (pos: usize)
    ensures
        pos <= old(events).len(),
        final(events)@ == old(events)@.insert(pos as int, e),
        event_views(final(events)@) == inserted(event_views(old(events)@), e@),
{
    let mut pos = events.len();
    while pos > 0 && events[pos - 1].timestamp > e.timestamp
        invariant
            pos <= events.len(),
            *events == *old(events),
            forall|j: int| pos <= j < events.len() ==> events[j].timestamp > e.timestamp,
        decreases pos,
    {
        pos = pos - 1;
    }
    proof {
        let views = event_views(events@);
        lemma_inserted_at(views, e@, pos as int);
        assert(event_views(events@.insert(pos as int, e)) =~= views.insert(pos as int, e@));
    }
    events.insert(pos, e);
    pos
}

/// The records of a fetch made ready for the destination.
#[derive(Debug)]
pub struct Prepared {
    /// The well-formed records without their identifiers, in the order of
    /// their start.
    pub events: Vec<Event>,
    /// The malformed records as they were fetched, for the log.
    pub malformed: Vec<Event>,
}

/// Makes fetched records ready for the destination. Malformed records are
/// set aside as they are. Every other record loses its identifier, which
/// means nothing outside the store it comes from, and is put in the order
/// of time: records that start together stay in the order in which they
/// were fetched.
pub fn prepare_events(fetched: Vec<Event>) -> (prepared: Prepared)
    ensures
        event_views(prepared.events@) == sorted_by_time(well_formed_only(event_views(fetched@))),
        forall|i: int| 0 <= i < prepared.events.len() ==> prepared.events[i].id is None,
        event_views(prepared.malformed@) == malformed_only(event_views(fetched@)),
        forall|i: int|
            0 <= i < prepared.malformed.len() ==> fetched@.contains(#[trigger] prepared.malformed[i]),
        prepared.events.len() + prepared.malformed.len() == fetched.len(),
{
    let mut events: Vec<Event> = Vec::new();
    let mut malformed: Vec<Event> = Vec::new();
    let ghost batch = fetched@;
    proof {
        assert(event_views(batch.take(0)) =~= Seq::<EventView>::empty());
        assert(event_views(events@) =~= Seq::<EventView>::empty());
        assert(event_views(malformed@) =~= Seq::<EventView>::empty());
    }
    for record in records: fetched.into_iter()
        invariant
            records.seq() == batch,
            event_views(events@) == sorted_by_time(
                well_formed_only(event_views(batch.take(records.index() as int))),
            ),
            forall|k: int| 0 <= k < events.len() ==> events[k].id is None,
            event_views(malformed@) == malformed_only(
                event_views(batch.take(records.index() as int)),
            ),
            forall|j: int| 0 <= j < malformed.len() ==> batch.contains(#[trigger] malformed[j]),
            events.len() + malformed.len() == records.index(),
    {
        let ghost i = records.index() as int;
        proof {
            let before = event_views(batch.take(i));
            let upto = event_views(batch.take(i + 1));
            assert(upto =~= before.push(record@));
            assert(upto.drop_last() =~= before);
            if record@.well_formed() {
                assert(well_formed_only(upto).drop_last() =~= well_formed_only(before));
            }
        }
        if record.is_well_formed() {
            let mut record = record;
            record.id = None;
            insert_in_order(&mut events, record);
        } else {
            let ghost aside = malformed@;
            malformed.push(record);
            proof {
                assert(event_views(malformed@) =~= event_views(aside).push(record@));
                assert(batch[i] == record);
                assert forall|j: int| 0 <= j < malformed.len() implies batch.contains(
                    #[trigger] malformed[j],
                ) by {
                    if j < aside.len() {
                        assert(malformed[j] == aside[j]);
                    }
                }
            }
        }
    }
    proof {
        assert(batch.take(batch.len() as int) =~= batch);
    }
    Prepared { events, malformed }
}

/// Whether `e` starts within the bounds.
pub(crate) fn starts_within(e: &Event, start: Option<i64>, end: Option<i64>) -> (r: bool)
    ensures
        r == within(e@, bound(start), bound(end)),
{
    let after_start = match start {
        Some(s) => s <= e.timestamp,
        None => true,
    };
    let before_end = match end {
        Some(t) => e.timestamp < t,
        None => true,
    };
    after_start && before_end
}

/// Whether `record` is a copy of one of `events`, identifier included.
pub open spec fn copied_from(record: Event, events: Seq<Event>) -> bool {
    exists|k: int|
        0 <= k < events.len() && (#[trigger] events[k])@ == record@ && events[k].id == record.id
}

/// Copies of the events that start within the bounds, in their order.
fn select(events: &Vec<Event>, start: Option<i64>, end: Option<i64>) -> (hits: Vec<Event>)
    ensures
        event_views(hits@) == selected(event_views(events@), bound(start), bound(end)),
        forall|i: int| 0 <= i < hits.len() ==> copied_from(#[trigger] hits[i], events@),
{
    let mut hits: Vec<Event> = Vec::new();
    let mut k: usize = 0;
    proof {
        assert(event_views(events@.take(0)) =~= Seq::<EventView>::empty());
        assert(event_views(hits@) =~= Seq::<EventView>::empty());
    }
    while k < events.len()
        invariant
            k <= events.len(),
            event_views(hits@) == selected(
                event_views(events@.take(k as int)),
                bound(start),
                bound(end),
            ),
            forall|i: int| 0 <= i < hits.len() ==> copied_from(#[trigger] hits[i], events@),
        decreases events.len() - k,
    {
        let e = &events[k];
        proof {
            let upto = event_views(events@.take(k + 1));
            assert(upto.drop_last() =~= event_views(events@.take(k as int)));
            assert(upto.last() == e@);
        }
        if starts_within(e, start, end) {
            let ghost before = hits@;
            hits.push(e.duplicate());
            proof {
                assert(event_views(hits@) =~= event_views(before).push(e@));
                assert(events[k as int]@ == hits[before.len() as int]@);
                assert forall|i: int| 0 <= i < hits.len() implies copied_from(
                    #[trigger] hits[i],
                    events@,
                ) by {
                    if i < before.len() {
                        assert(hits[i] == before[i]);
                    }
                }
            }
        }
        k = k + 1;
    }
    proof {
        assert(events@.take(events.len() as int) =~= events@);
    }
    hits
}

/// Answers a query from the events of a bucket, given in the order of
/// their start: copies, identifiers included, of those that start at or
/// after `start` and before `end`; with a `limit`, of no more than that
/// many, the most recent ones.
pub fn query_events(
    events: &Vec<Event>,
    start: Option<i64>,
    end: Option<i64>,
    limit: Option<u64>,
) -> (answer: Vec<Event>)
    ensures
        event_views(answer@) == queried(event_views(events@), bound(start), bound(end), limit),
        forall|i: int| 0 <= i < answer.len() ==> copied_from(#[trigger] answer[i], events@),
{
    let mut hits = select(events, start, end);
    match limit {
        Some(n) => {
            if n < hits.len() as u64 {
                let at = hits.len() - n as usize;
                let ghost all = hits@;
                let newest = hits.split_off(at);
                proof {
                    assert(event_views(newest@) =~= event_views(all).skip(at as int));
                    assert forall|i: int| 0 <= i < newest.len() implies copied_from(
                        #[trigger] newest[i],
                        events@,
                    ) by {
                        assert(newest[i] == all[at + i]);
                    }
                }
                newest
            } else {
                hits
            }
        },
        None => hits,
    }
}

/// Where a transfer takes up, from the most recent events of the
/// destination bucket as fetched (the latest one last): nowhere in
/// particular if there is none, else at the end of the latest. A latest
/// record that is malformed gives no point to resume at.
pub fn cursor_after(latest: &Vec<Event>) -> (r: Result<Option<i64>, StoreError>)
    ensures
        match r {
            Ok(at) => bound(at) == cursor(event_views(latest@)) && (latest.len() > 0
                ==> latest@.last()@.well_formed()),
            Err(e) => e is MalformedRecord && latest.len() > 0 && !latest@.last()@.well_formed(),
        },
{
    if latest.len() == 0 {
        return Ok(None);
    }
    let last = &latest[latest.len() - 1];
    proof {
        assert(event_views(latest@).last() == last@);
    }
    if !last.is_well_formed() {
        return Err(StoreError::MalformedRecord);
    }
    match last.end() {
        Some(end) => Ok(Some(end)),
        None => Err(StoreError::MalformedRecord),
    }
}

} // verus!
