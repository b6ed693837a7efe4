//! The events of one bucket as a sequence in time, and what reading from
//! it and writing to it mean.
//!
//! A bucket holds its events in the order of their start; among events that
//! start together, the one written first comes first. The definitions here
//! are the meaning of the store operations and of a transfer.

use vstd::prelude::*;
use crate::models::EventView;

verus! {

/// Whether no event starts before one that comes earlier in the sequence.
pub open spec fn ascending(events: Seq<EventView>) -> bool {
    forall|i: int, j: int| 0 <= i <= j < events.len() ==> events[i].timestamp <= events[j].timestamp
}

/// The sequence with `e` put in behind every event that starts no later
/// than `e` does, looked for from the end.
pub open spec fn inserted(events: Seq<EventView>, e: EventView) -> Seq<EventView>
    decreases events.len(),
{
    if events.len() == 0 || events.last().timestamp <= e.timestamp {
        events.push(e)
    } else {
        inserted(events.drop_last(), e).push(events.last())
    }
}

/// The sequence with each of `added` put in, one after the other.
pub open spec fn inserted_all(events: Seq<EventView>, added: Seq<EventView>) -> Seq<EventView>
    decreases added.len(),
{
    if added.len() == 0 {
        events
    } else {
        inserted(inserted_all(events, added.drop_last()), added.last())
    }
}

/// The events in the order of their start, events that start together in
/// the order they had.
pub open spec fn sorted_by_time(events: Seq<EventView>) -> Seq<EventView> {
    inserted_all(Seq::empty(), events)
}

/// Whether an event `e` that is written behind `last` is merged into it:
/// `e` starts no earlier than `last` starts, and no later than `window`
/// after `last` ends.
pub open spec fn merges(last: EventView, e: EventView, window: int) -> bool {
    last.timestamp <= e.timestamp <= last.end() + window
}

/// `last` drawn out to cover `e` as well.
pub open spec fn merged(last: EventView, e: EventView) -> EventView {
    EventView {
        timestamp: last.timestamp,
        duration: (if last.end() >= e.end() {
            last.end()
        } else {
            e.end()
        }) - last.timestamp,
        data: last.data,
    }
}

/// Whether a merging write of `e` changes the latest event instead of
/// adding one.
pub open spec fn absorbs(events: Seq<EventView>, e: EventView, window: int) -> bool {
    events.len() > 0 && merges(events.last(), e, window)
}

/// The event that a merging write of `e` leaves in the bucket and hands
/// back: the latest event drawn out, or `e` itself.
pub open spec fn merge_result(events: Seq<EventView>, e: EventView, window: int) -> EventView {
    if absorbs(events, e, window) {
        merged(events.last(), e)
    } else {
        e
    }
}

/// The sequence after a merging write of `e`.
pub open spec fn merge_written(events: Seq<EventView>, e: EventView, window: int) -> Seq<
    EventView,
> {
    if absorbs(events, e, window) {
        events.drop_last().push(merged(events.last(), e))
    } else {
        inserted(events, e)
    }
}

/// The sequence after merging writes of each of `added`, in their order.
pub open spec fn merge_written_all(
    events: Seq<EventView>,
    added: Seq<EventView>,
    window: int,
) -> Seq<EventView>
    decreases added.len(),
{
    if added.len() == 0 {
        events
    } else {
        merge_written(merge_written_all(events, added.drop_last(), window), added.last(), window)
    }
}

/// An optional machine instant as an optional mathematical one.
pub open spec fn bound(instant: Option<i64>) -> Option<int> {
    match instant {
        Some(t) => Some(t as int),
        None => None,
    }
}

/// Whether `e` starts at or after `start` and before `end`, an absent bound
/// leaving that side open.
pub open spec fn within(e: EventView, start: Option<int>, end: Option<int>) -> bool {
    &&& start matches Some(s) ==> s <= e.timestamp
    &&& end matches Some(t) ==> e.timestamp < t
}

/// The events that start within the bounds, in their order.
pub open spec fn selected(events: Seq<EventView>, start: Option<int>, end: Option<int>) -> Seq<
    EventView,
>
    decreases events.len(),
{
    if events.len() == 0 {
        events
    } else if within(events.last(), start, end) {
        selected(events.drop_last(), start, end).push(events.last())
    } else {
        selected(events.drop_last(), start, end)
    }
}

/// The most recent `limit` events, or all of them where no limit is set or
/// there are no more than that.
pub open spec fn newest(events: Seq<EventView>, limit: Option<u64>) -> Seq<EventView> {
    match limit {
        Some(n) => if n < events.len() {
            events.skip(events.len() - n)
        } else {
            events
        },
        None => events,
    }
}

/// What a query for events answers.
pub open spec fn queried(
    events: Seq<EventView>,
    start: Option<int>,
    end: Option<int>,
    limit: Option<u64>,
) -> Seq<EventView> {
    newest(selected(events, start, end), limit)
}

/// The well-formed events, in their order.
pub open spec fn well_formed_only(events: Seq<EventView>) -> Seq<EventView>
    decreases events.len(),
{
    if events.len() == 0 {
        events
    } else if events.last().well_formed() {
        well_formed_only(events.drop_last()).push(events.last())
    } else {
        well_formed_only(events.drop_last())
    }
}

/// The malformed events, in their order.
pub open spec fn malformed_only(events: Seq<EventView>) -> Seq<EventView>
    decreases events.len(),
{
    if events.len() == 0 {
        events
    } else if !events.last().well_formed() {
        malformed_only(events.drop_last()).push(events.last())
    } else {
        malformed_only(events.drop_last())
    }
}

/// Where the next transfer into a bucket takes up: at the instant at which
/// its latest event ends; nowhere in particular if it holds no event.
pub open spec fn cursor(events: Seq<EventView>) -> Option<int> {
    if events.len() == 0 {
        None
    } else {
        Some(events.last().end())
    }
}

/// The events of `source` that a transfer hands to a destination which
/// resumes at `from`: those that start at or after it and are well
/// formed, in the order of their start.
pub open spec fn pending(source: Seq<EventView>, from: Option<int>) -> Seq<EventView> {
    sorted_by_time(well_formed_only(selected(source, from, None)))
}

/// The destination bucket after a transfer from `source`. Each pending
/// event is written in turn, with a merge window of zero.
pub open spec fn synced(dest: Seq<EventView>, source: Seq<EventView>) -> Seq<EventView> {
    merge_written_all(dest, pending(source, cursor(dest)), 0)
}

/// Without bounds, every event is selected.
pub proof fn lemma_selected_unbounded(events: Seq<EventView>)
    ensures
        selected(events, None, None) == events,
    decreases events.len(),
{
    if events.len() > 0 {
        lemma_selected_unbounded(events.drop_last());
        assert(events.drop_last().push(events.last()) =~= events);
    }
}

/// A query without bounds for one event answers the latest, and the point
/// at which that answer says to resume is the bucket's own.
pub proof fn lemma_latest_gives_cursor(events: Seq<EventView>)
    ensures
        cursor(queried(events, None, None, Some(1))) == cursor(events),
        queried(events, None, None, Some(1)).len() > 0 <==> events.len() > 0,
        events.len() > 0 ==> queried(events, None, None, Some(1)).last() == events.last(),
        queried(events, None, None, None) == events,
{
    lemma_selected_unbounded(events);
}

/// An event is in `events.push(e)` if it is in `events` or is `e`.
pub proof fn lemma_push_has(events: Seq<EventView>, e: EventView, x: EventView)
    ensures
        events.push(e).contains(x) <==> events.contains(x) || x == e,
{
    let grown = events.push(e);
    if events.contains(x) {
        let i = choose|i: int| 0 <= i < events.len() && events[i] == x;
        assert(grown[i] == x);
    }
    if x == e {
        assert(grown[events.len() as int] == x);
    }
    if grown.contains(x) {
        let i = choose|i: int| 0 <= i < grown.len() && grown[i] == x;
        if i < events.len() {
            assert(events[i] == x);
        }
    }
}

/// An event is in a sequence that is not empty if it is the last one or
/// among those before.
pub proof fn lemma_last_or_before(events: Seq<EventView>, x: EventView)
    requires
        events.len() > 0,
    ensures
        events.contains(x) <==> events.drop_last().contains(x) || x == events.last(),
{
    assert(events.drop_last().push(events.last()) =~= events);
    lemma_push_has(events.drop_last(), events.last(), x);
}

/// Insertion adds the event and keeps the others.
pub proof fn lemma_inserted_has(events: Seq<EventView>, e: EventView, x: EventView)
    ensures
        inserted(events, e).contains(x) <==> events.contains(x) || x == e,
    decreases events.len(),
{
    if events.len() == 0 || events.last().timestamp <= e.timestamp {
        lemma_push_has(events, e, x);
    } else {
        lemma_inserted_has(events.drop_last(), e, x);
        lemma_push_has(inserted(events.drop_last(), e), events.last(), x);
        lemma_last_or_before(events, x);
    }
}

/// Insertion of several events adds them and keeps the others.
pub proof fn lemma_inserted_all_has(events: Seq<EventView>, added: Seq<EventView>, x: EventView)
    ensures
        inserted_all(events, added).contains(x) <==> events.contains(x) || added.contains(x),
    decreases added.len(),
{
    if added.len() > 0 {
        lemma_inserted_all_has(events, added.drop_last(), x);
        lemma_inserted_has(inserted_all(events, added.drop_last()), added.last(), x);
        lemma_last_or_before(added, x);
    }
}

/// A selection holds the events that start within the bounds, and no other.
pub proof fn lemma_selected_has(
    events: Seq<EventView>,
    start: Option<int>,
    end: Option<int>,
    x: EventView,
)
    ensures
        selected(events, start, end).contains(x) <==> events.contains(x) && within(x, start, end),
    decreases events.len(),
{
    if events.len() > 0 {
        lemma_selected_has(events.drop_last(), start, end, x);
        lemma_last_or_before(events, x);
        if within(events.last(), start, end) {
            lemma_push_has(selected(events.drop_last(), start, end), events.last(), x);
        }
    }
}

/// The well-formed events of a sequence are those of its events that are
/// well formed.
pub proof fn lemma_well_formed_only_has(events: Seq<EventView>, x: EventView)
    ensures
        well_formed_only(events).contains(x) <==> events.contains(x) && x.well_formed(),
    decreases events.len(),
{
    if events.len() > 0 {
        lemma_well_formed_only_has(events.drop_last(), x);
        lemma_last_or_before(events, x);
        if events.last().well_formed() {
            lemma_push_has(well_formed_only(events.drop_last()), events.last(), x);
        }
    }
}

/// The pending events are the well-formed events of the source that start
/// at or after the point of resumption.
pub proof fn lemma_pending_has(source: Seq<EventView>, from: Option<int>, x: EventView)
    ensures
        pending(source, from).contains(x) <==> source.contains(x) && x.well_formed() && within(
            x,
            from,
            None,
        ),
{
    let chosen = selected(source, from, None);
    lemma_inserted_all_has(Seq::empty(), well_formed_only(chosen), x);
    lemma_well_formed_only_has(chosen, x);
    lemma_selected_has(source, from, None, x);
}

/// Insertion adds one occurrence of the event and takes none away.
pub proof fn lemma_inserted_counts(events: Seq<EventView>, e: EventView)
    ensures
        inserted(events, e).to_multiset() == events.to_multiset().insert(e),
    decreases events.len(),
{
    events.to_multiset_ensures();
    if events.len() == 0 || events.last().timestamp <= e.timestamp {
    } else {
        let front = events.drop_last();
        lemma_inserted_counts(front, e);
        front.to_multiset_ensures();
        inserted(front, e).to_multiset_ensures();
        assert(front.push(events.last()) =~= events);
        assert(front.to_multiset().insert(e).insert(events.last()) =~= front.to_multiset().insert(
            events.last(),
        ).insert(e));
    }
}

/// Putting events in the order of time rearranges them: each event occurs
/// as often as before.
pub proof fn lemma_sorted_rearranges(events: Seq<EventView>)
    ensures
        sorted_by_time(events).to_multiset() == events.to_multiset(),
        sorted_by_time(events).len() == events.len(),
    decreases events.len(),
{
    events.to_multiset_ensures();
    sorted_by_time(events).to_multiset_ensures();
    if events.len() == 0 {
        assert(sorted_by_time(events) =~= events);
    } else {
        let front = events.drop_last();
        lemma_sorted_rearranges(front);
        lemma_inserted_counts(sorted_by_time(front), events.last());
        front.to_multiset_ensures();
        assert(front.push(events.last()) =~= events);
    }
}

/// Insertion keeps the order of time.
pub proof fn lemma_inserted_ascending(events: Seq<EventView>, e: EventView)
    requires
        ascending(events),
    ensures
        ascending(inserted(events, e)),
    decreases events.len(),
{
    if events.len() == 0 || events.last().timestamp <= e.timestamp {
    } else {
        let front = inserted(events.drop_last(), e);
        lemma_inserted_ascending(events.drop_last(), e);
        assert forall|i: int, j: int| 0 <= i <= j < front.len() + 1 implies front.push(
            events.last(),
        )[i].timestamp <= front.push(events.last())[j].timestamp by {
            if j == front.len() && i < front.len() {
                lemma_inserted_has(events.drop_last(), e, front[i]);
                assert(front.contains(front[i]));
                if front[i] != e {
                    let k = choose|k: int|
                        0 <= k < events.drop_last().len() && events.drop_last()[k] == front[i];
                    assert(events[k].timestamp <= events[events.len() - 1].timestamp);
                }
            }
        }
    }
}

/// Insertion of several events keeps the order of time.
pub proof fn lemma_inserted_all_ascending(events: Seq<EventView>, added: Seq<EventView>)
    requires
        ascending(events),
    ensures
        ascending(inserted_all(events, added)),
    decreases added.len(),
{
    if added.len() > 0 {
        lemma_inserted_all_ascending(events, added.drop_last());
        lemma_inserted_ascending(inserted_all(events, added.drop_last()), added.last());
    }
}

/// Events put in the order of time are in the order of time.
pub proof fn lemma_sorted_ascending(events: Seq<EventView>)
    ensures
        ascending(sorted_by_time(events)),
{
    lemma_inserted_all_ascending(Seq::empty(), events);
}

/// A merging write keeps the order of time.
pub proof fn lemma_merge_written_ascending(events: Seq<EventView>, e: EventView, window: int)
    requires
        ascending(events),
    ensures
        ascending(merge_written(events, e, window)),
{
    if absorbs(events, e, window) {
        let out = merge_written(events, e, window);
        assert forall|i: int, j: int| 0 <= i <= j < out.len() implies out[i].timestamp
            <= out[j].timestamp by {
            assert(out[i].timestamp == events[i].timestamp);
            assert(out[j].timestamp == events[j].timestamp);
        }
    } else {
        lemma_inserted_ascending(events, e);
    }
}

/// Merging writes keep the order of time.
pub proof fn lemma_merge_written_all_ascending(
    events: Seq<EventView>,
    added: Seq<EventView>,
    window: int,
)
    requires
        ascending(events),
    ensures
        ascending(merge_written_all(events, added, window)),
    decreases added.len(),
{
    if added.len() > 0 {
        lemma_merge_written_all_ascending(events, added.drop_last(), window);
        lemma_merge_written_ascending(
            merge_written_all(events, added.drop_last(), window),
            added.last(),
            window,
        );
    }
}

/// Whether `events` can be written behind `held` in their order: they are
/// well formed and in the order of time, and none starts before the latest
/// event of `held` does.
pub open spec fn follows(held: Seq<EventView>, events: Seq<EventView>) -> bool {
    &&& ascending(events)
    &&& forall|i: int| 0 <= i < events.len() ==> (#[trigger] events[i]).well_formed()
    &&& held.len() > 0 && events.len() > 0 ==> held.last().timestamp <= events[0].timestamp
}

/// Events written in the order of time go to the end of the bucket. Each
/// of them draws out the latest event or becomes the latest: no event but
/// the one that was the latest is touched, and that one keeps its start
/// and its payload. The latest event afterwards ends no earlier than the
/// latest did before; it starts no later than the last event written, and
/// ends no earlier than that one starts.
pub proof fn lemma_written_in_order(held: Seq<EventView>, events: Seq<EventView>)
    requires
        follows(held, events),
    ensures
        ({
            let out = merge_written_all(held, events, 0);
            &&& out.len() >= held.len()
            &&& held.len() > 0 ==> {
                &&& out.take(held.len() - 1) == held.drop_last()
                &&& out[held.len() - 1].timestamp == held.last().timestamp
                &&& out[held.len() - 1].data == held.last().data
                &&& out[held.len() - 1].end() >= held.last().end()
                &&& out.last().end() >= held.last().end()
            }
            &&& events.len() > 0 ==> {
                &&& out.len() > 0
                &&& out.last().timestamp <= events.last().timestamp <= out.last().end()
                &&& out.last().duration >= 0
            }
        }),
    decreases events.len(),
{
    let out = merge_written_all(held, events, 0);
    if events.len() == 0 {
        if held.len() > 0 {
            assert(out.take(held.len() - 1) =~= held.drop_last());
        }
    } else {
        let front = events.drop_last();
        let e = events.last();
        let mid = merge_written_all(held, front, 0);
        assert(follows(held, front)) by {
            assert forall|i: int| 0 <= i < front.len() implies (#[trigger] front[i]).well_formed() by {
                assert(events[i].well_formed());
            }
            assert forall|i: int, j: int| 0 <= i <= j < front.len() implies front[i].timestamp
                <= front[j].timestamp by {
                assert(events[i].timestamp <= events[j].timestamp);
            }
        }
        lemma_written_in_order(held, front);
        assert(e.well_formed());
        if mid.len() > 0 {
            if front.len() > 0 {
                assert(front.last().timestamp <= e.timestamp) by {
                    assert(events[front.len() - 1].timestamp <= events[events.len() - 1].timestamp);
                }
            } else {
                assert(mid == held);
                assert(events[0] == e);
            }
            assert(mid.last().timestamp <= e.timestamp);
            if !absorbs(mid, e, 0) {
                assert(out == mid.push(e));
            }
        }
        if held.len() > 0 {
            assert(out.take(held.len() - 1) =~= mid.take(held.len() - 1));
        }
    }
}

/// Events that all start at the instant `at`, written to a bucket whose
/// latest event covers `at`, are all merged into that event: the bucket
/// gains no event.
pub proof fn lemma_written_at_the_end(held: Seq<EventView>, events: Seq<EventView>, at: int)
    requires
        held.len() > 0,
        held.last().timestamp <= at <= held.last().end(),
        forall|i: int| 0 <= i < events.len() ==> (#[trigger] events[i]).timestamp == at,
    ensures
        ({
            let out = merge_written_all(held, events, 0);
            &&& out.len() == held.len()
            &&& out.last().timestamp == held.last().timestamp
            &&& out.last().end() >= held.last().end()
        }),
    decreases events.len(),
{
    if events.len() > 0 {
        let front = events.drop_last();
        assert forall|i: int| 0 <= i < front.len() implies (#[trigger] front[i]).timestamp == at by {
            assert(events[i].timestamp == at);
        }
        lemma_written_at_the_end(held, front, at);
        assert(events[events.len() - 1].timestamp == at);
    }
}

} // verus!
