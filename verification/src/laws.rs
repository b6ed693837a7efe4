//! What holds of every transfer.

use vstd::prelude::*;
use crate::models::{BucketView, EventView};
use crate::naming::{mirror_id, mirror_of};
use crate::store::StoreState;
use crate::sync::{
    bucket_synced,
    pass_synced,
    pass_through,
    reports_cover,
    with_mirror,
    BucketReport,
};
use crate::timeline::{
    ascending,
    cursor,
    follows,
    lemma_merge_written_all_ascending,
    lemma_pending_has,
    lemma_sorted_ascending,
    lemma_written_at_the_end,
    lemma_written_in_order,
    merge_written_all,
    pending,
    selected,
    synced,
    well_formed_only,
};

verus! {

/// A transfer asks the source for nothing that starts before the latest
/// event of the destination ends, and hands on nothing but well-formed
/// events of the source, in the order of time.
pub proof fn lemma_transfer_resumes(dest: Seq<EventView>, source: Seq<EventView>)
    ensures
        ascending(pending(source, cursor(dest))),
        forall|i: int|
            0 <= i < pending(source, cursor(dest)).len() ==> {
                let e = #[trigger] pending(source, cursor(dest))[i];
                &&& source.contains(e)
                &&& e.well_formed()
                &&& dest.len() > 0 ==> e.timestamp >= dest.last().end()
            },
{
    let incoming = pending(source, cursor(dest));
    lemma_sorted_ascending(well_formed_only(selected(source, cursor(dest), None)));
    assert forall|i: int| 0 <= i < incoming.len() implies {
        let e = #[trigger] incoming[i];
        &&& source.contains(e)
        &&& e.well_formed()
        &&& dest.len() > 0 ==> e.timestamp >= dest.last().end()
    } by {
        assert(incoming.contains(incoming[i]));
        lemma_pending_has(source, cursor(dest), incoming[i]);
    }
}

/// What a transfer hands on can be written behind what the destination
/// holds, if the latest event of the destination does not run backwards.
proof fn lemma_transfer_follows(dest: Seq<EventView>, source: Seq<EventView>)
    requires
        dest.len() > 0 ==> dest.last().duration >= 0,
    ensures
        follows(dest, pending(source, cursor(dest))),
{
    lemma_transfer_resumes(dest, source);
    let incoming = pending(source, cursor(dest));
    if dest.len() > 0 && incoming.len() > 0 {
        assert(incoming[0].timestamp >= dest.last().end());
    }
}

/// A destination bucket that is in the order of time is so after a
/// transfer, whatever the source holds.
pub proof fn lemma_transfer_keeps_order(dest: Seq<EventView>, source: Seq<EventView>)
    requires
        ascending(dest),
    ensures
        ascending(synced(dest, source)),
{
    lemma_merge_written_all_ascending(dest, pending(source, cursor(dest)), 0);
}

/// A transfer writes at the end of the destination bucket. Where the
/// latest event of the destination does not run backwards, every event
/// before it is left as it was, and the latest keeps its start and its
/// payload and ends no earlier than before.
pub proof fn lemma_transfer_appends(dest: Seq<EventView>, source: Seq<EventView>)
    requires
        dest.len() > 0,
        dest.last().duration >= 0,
    ensures
        synced(dest, source).len() >= dest.len(),
        synced(dest, source).take(dest.len() - 1) == dest.drop_last(),
        synced(dest, source)[dest.len() - 1].timestamp == dest.last().timestamp,
        synced(dest, source)[dest.len() - 1].data == dest.last().data,
        synced(dest, source)[dest.len() - 1].end() >= dest.last().end(),
{
    lemma_transfer_follows(dest, source);
    lemma_written_in_order(dest, pending(source, cursor(dest)));
}

/// Two transfers of one bucket in a row, with nothing written to the source
/// or to the mirror in between: if both are reported as synced, the second
/// reports that the mirror gained no event.
pub proof fn lemma_second_sync_gains_nothing(
    from: StoreState,
    source: BucketView,
    before: StoreState,
    first: BucketReport,
    between: StoreState,
    second: BucketReport,
    after: StoreState,
)
    requires
        bucket_synced(from, source, before, first, between),
        bucket_synced(from, source, between, second, after),
        first.outcome is Synced,
        second.outcome is Synced,
    ensures
        second.outcome->delta == 0,
        second.outcome->count_before == first.outcome->count_after,
{
    let dest = mirror_id(source.id, source.hostname);
    let held = with_mirror(before, source).events(dest);
    let offered = from.events(source.id);
    assert(between.has(dest));
    assert(with_mirror(between, source) == between);
    assert(between.events(dest) == synced(held, offered));
    lemma_second_transfer_adds_nothing(held, offered);
}

/// Whether a bucket holding `held` has taken in all that `offered` has for
/// it: every well-formed event of `offered` starts no later than the latest
/// event of `held` ends, and that event does not run backwards.
pub open spec fn caught_up(held: Seq<EventView>, offered: Seq<EventView>) -> bool {
    &&& held.len() > 0 ==> held.last().duration >= 0
    &&& forall|x: EventView|
        #[trigger] offered.contains(x) && x.well_formed() ==> held.len() > 0 && x.timestamp
            <= held.last().end()
}

/// A transfer leaves the destination bucket caught up with its source.
pub proof fn lemma_transfer_catches_up(dest: Seq<EventView>, source: Seq<EventView>)
    requires
        dest.len() > 0 ==> dest.last().duration >= 0,
    ensures
        caught_up(synced(dest, source), source),
{
    let incoming = pending(source, cursor(dest));
    let out = synced(dest, source);
    lemma_transfer_resumes(dest, source);
    lemma_transfer_follows(dest, source);
    lemma_written_in_order(dest, incoming);
    assert forall|x: EventView| #[trigger] source.contains(x) && x.well_formed() implies out.len()
        > 0 && x.timestamp <= out.last().end() by {
        lemma_pending_has(source, cursor(dest), x);
        if incoming.contains(x) {
            let k = choose|k: int| 0 <= k < incoming.len() && incoming[k] == x;
            assert(incoming[k].timestamp <= incoming[incoming.len() - 1].timestamp);
        }
    }
}

/// A bucket that is caught up with a source stays so through a transfer
/// from any source.
pub proof fn lemma_transfer_keeps_caught_up(
    dest: Seq<EventView>,
    source: Seq<EventView>,
    other: Seq<EventView>,
)
    requires
        caught_up(dest, other),
    ensures
        caught_up(synced(dest, source), other),
{
    lemma_transfer_follows(dest, source);
    lemma_written_in_order(dest, pending(source, cursor(dest)));
}

/// A transfer into a bucket that is caught up with the source adds no
/// event.
pub proof fn lemma_caught_up_gains_nothing(dest: Seq<EventView>, source: Seq<EventView>)
    requires
        caught_up(dest, source),
    ensures
        synced(dest, source).len() == dest.len(),
{
    let incoming = pending(source, cursor(dest));
    if incoming.len() > 0 {
        lemma_transfer_resumes(dest, source);
        assert(source.contains(incoming[0]));
        let at = dest.last().end();
        assert forall|i: int| 0 <= i < incoming.len() implies (#[trigger] incoming[i]).timestamp
            == at by {
            assert(source.contains(incoming[i]));
        }
        lemma_written_at_the_end(dest, incoming, at);
    }
}

/// A transfer that follows a transfer from the same source adds no event.
/// Where the latest event of the destination does not run backwards, the
/// destination bucket holds as many events after the second transfer as
/// after the first.
pub proof fn lemma_second_transfer_adds_nothing(dest: Seq<EventView>, source: Seq<EventView>)
    requires
        dest.len() > 0 ==> dest.last().duration >= 0,
    ensures
        synced(synced(dest, source), source).len() == synced(dest, source).len(),
{
    lemma_transfer_catches_up(dest, source);
    lemma_caught_up_gains_nothing(synced(dest, source), source);
}

/// Whether every bucket of `before` is a bucket of `after`, described as
/// it was.
pub open spec fn keeps_buckets(before: StoreState, after: StoreState) -> bool {
    forall|id: Seq<char>|
        #[trigger] before.has(id) ==> after.has(id) && after.info(id) == before.info(id)
}

/// The transfer of a bucket, synced or failed, removes no bucket of the
/// destination and changes the description of none: what a mirror says of
/// its origin is written when the mirror is created and never again.
pub proof fn lemma_sync_keeps_buckets(
    from: StoreState,
    source: BucketView,
    before: StoreState,
    report: BucketReport,
    after: StoreState,
)
    requires
        bucket_synced(from, source, before, report, after),
    ensures
        keeps_buckets(before, after),
        !before.has(mirror_id(source.id, source.hostname)) && after.has(
            mirror_id(source.id, source.hostname),
        ) ==> after.info(mirror_id(source.id, source.hostname)) == mirror_of(source),
{
    let dest = mirror_id(source.id, source.hostname);
    let ready = with_mirror(before, source);
    assert(ready.has(dest));
    assert forall|id: Seq<char>| #[trigger] before.has(id) implies after.has(id) && after.info(id)
        == before.info(id) by {
        assert(ready.has(id) && ready.info(id) == before.info(id));
    }
}

/// A pass removes no bucket of the destination and changes the description
/// of none.
pub proof fn lemma_pass_keeps_buckets(
    from: StoreState,
    before: StoreState,
    reports: Seq<BucketReport>,
    after: StoreState,
)
    requires
        pass_synced(from, before, reports, after),
    ensures
        keeps_buckets(before, after),
{
    let states = choose|states: Seq<StoreState>|
        {
            &&& #[trigger] pass_through(from, states, reports)
            &&& states.first() == before
            &&& states.last() == after
        };
    lemma_path_keeps_buckets(from, states, reports, reports.len() as int);
}

/// Every state that a pass runs through has the buckets of the first,
/// described as they were.
proof fn lemma_path_keeps_buckets(
    from: StoreState,
    states: Seq<StoreState>,
    reports: Seq<BucketReport>,
    upto: int,
)
    requires
        pass_through(from, states, reports),
        0 <= upto <= reports.len(),
    ensures
        keeps_buckets(states.first(), states[upto]),
    decreases upto,
{
    if upto > 0 {
        lemma_path_keeps_buckets(from, states, reports, upto - 1);
        let report = reports[upto - 1];
        lemma_sync_keeps_buckets(
            from,
            from.info(report.source_id@),
            states[upto - 1],
            report,
            states[upto],
        );
    }
}

/// Whether every bucket of the store is in the order of time.
pub open spec fn in_order(store: StoreState) -> bool {
    forall|id: Seq<char>| #[trigger] store.has(id) ==> ascending(store.events(id))
}

/// The transfer of a bucket, synced or failed, leaves every bucket of the
/// destination in the order of time.
pub proof fn lemma_sync_keeps_order(
    from: StoreState,
    source: BucketView,
    before: StoreState,
    report: BucketReport,
    after: StoreState,
)
    requires
        bucket_synced(from, source, before, report, after),
        in_order(before),
    ensures
        in_order(after),
{
    let dest = mirror_id(source.id, source.hostname);
    let ready = with_mirror(before, source);
    let held = ready.events(dest);
    let offered = from.events(source.id);
    let incoming = pending(offered, cursor(held));
    assert(ready.has(dest));
    assert(in_order(ready)) by {
        assert forall|id: Seq<char>| #[trigger] ready.has(id) implies ascending(
            ready.events(id),
        ) by {
            if before.has(id) {
                assert(ready.events(id) == before.events(id));
            }
        }
    }
    assert forall|id: Seq<char>| #[trigger] after.has(id) implies ascending(after.events(id)) by {
        if after != before {
            let written = after.events(dest);
            assert(exists|k: int|
                0 <= k <= incoming.len() && written == merge_written_all(
                    held,
                    incoming.take(k),
                    0,
                )) by {
                if report.outcome is Synced {
                    assert(incoming.take(incoming.len() as int) =~= incoming);
                }
            }
            let k = choose|k: int|
                0 <= k <= incoming.len() && written == merge_written_all(
                    held,
                    incoming.take(k),
                    0,
                );
            lemma_merge_written_all_ascending(held, incoming.take(k), 0);
            if id != dest {
                assert(ready.has(id));
                assert(after.events(id) == ready.events(id));
            }
        }
    }
}

/// A pass leaves every bucket of the destination in the order of time, if
/// every bucket was so before.
pub proof fn lemma_pass_keeps_order(
    from: StoreState,
    before: StoreState,
    reports: Seq<BucketReport>,
    after: StoreState,
)
    requires
        pass_synced(from, before, reports, after),
        in_order(before),
    ensures
        in_order(after),
{
    let states = choose|states: Seq<StoreState>|
        {
            &&& #[trigger] pass_through(from, states, reports)
            &&& states.first() == before
            &&& states.last() == after
        };
    lemma_path_keeps_order(from, states, reports, reports.len() as int);
}

/// Every state that a pass runs through is in the order of time, if the
/// first is.
proof fn lemma_path_keeps_order(
    from: StoreState,
    states: Seq<StoreState>,
    reports: Seq<BucketReport>,
    upto: int,
)
    requires
        pass_through(from, states, reports),
        in_order(states.first()),
        0 <= upto <= reports.len(),
    ensures
        in_order(states[upto]),
    decreases upto,
{
    if upto > 0 {
        lemma_path_keeps_order(from, states, reports, upto - 1);
        let report = reports[upto - 1];
        lemma_sync_keeps_order(
            from,
            from.info(report.source_id@),
            states[upto - 1],
            report,
            states[upto],
        );
    }
}

/// The mirror of a bucket that was synced is caught up with the bucket.
proof fn lemma_sync_catches_up(
    from: StoreState,
    source: BucketView,
    before: StoreState,
    report: BucketReport,
    after: StoreState,
)
    requires
        bucket_synced(from, source, before, report, after),
        report.outcome is Synced,
    ensures
        after.has(mirror_id(source.id, source.hostname)),
        caught_up(
            after.events(mirror_id(source.id, source.hostname)),
            from.events(source.id),
        ),
{
    let dest = mirror_id(source.id, source.hostname);
    let held = with_mirror(before, source).events(dest);
    lemma_transfer_catches_up(held, from.events(source.id));
}

/// A bucket of the destination that is caught up with some source stays so
/// when a bucket is synced, whichever bucket that is.
proof fn lemma_sync_keeps_caught_up(
    from: StoreState,
    source: BucketView,
    before: StoreState,
    report: BucketReport,
    after: StoreState,
    bucket: Seq<char>,
    other: Seq<EventView>,
)
    requires
        bucket_synced(from, source, before, report, after),
        report.outcome is Synced,
        before.has(bucket),
        caught_up(before.events(bucket), other),
    ensures
        after.has(bucket),
        caught_up(after.events(bucket), other),
{
    let dest = mirror_id(source.id, source.hostname);
    let ready = with_mirror(before, source);
    assert(ready.has(dest));
    if bucket == dest {
        lemma_transfer_keeps_caught_up(before.events(bucket), from.events(source.id), other);
    } else {
        assert(ready.has(bucket) && ready.events(bucket) == before.events(bucket));
        assert(after.events(bucket) == ready.events(bucket));
    }
}

/// A bucket of the destination that is caught up with some source at one
/// point of a pass is so at every later point, as long as the buckets in
/// between are synced.
proof fn lemma_path_keeps_caught_up(
    from: StoreState,
    states: Seq<StoreState>,
    reports: Seq<BucketReport>,
    since: int,
    upto: int,
    bucket: Seq<char>,
    other: Seq<EventView>,
)
    requires
        pass_through(from, states, reports),
        forall|i: int| 0 <= i < reports.len() ==> (#[trigger] reports[i]).outcome is Synced,
        0 <= since <= upto <= reports.len(),
        states[since].has(bucket),
        caught_up(states[since].events(bucket), other),
    ensures
        states[upto].has(bucket),
        caught_up(states[upto].events(bucket), other),
    decreases upto - since,
{
    if since < upto {
        lemma_path_keeps_caught_up(from, states, reports, since, upto - 1, bucket, other);
        let report = reports[upto - 1];
        lemma_sync_keeps_caught_up(
            from,
            from.info(report.source_id@),
            states[upto - 1],
            report,
            states[upto],
            bucket,
            other,
        );
    }
}

/// A pass that follows a pass from the same source gains nothing. If every
/// bucket is reported as synced in both, the second pass reports for every
/// bucket that its mirror gained no event.
pub proof fn lemma_second_pass_gains_nothing(
    from: StoreState,
    before: StoreState,
    first: Seq<BucketReport>,
    between: StoreState,
    second: Seq<BucketReport>,
    after: StoreState,
)
    requires
        reports_cover(first, from),
        reports_cover(second, from),
        pass_synced(from, before, first, between),
        pass_synced(from, between, second, after),
        forall|i: int| 0 <= i < first.len() ==> (#[trigger] first[i]).outcome is Synced,
        forall|i: int| 0 <= i < second.len() ==> (#[trigger] second[i]).outcome is Synced,
    ensures
        forall|i: int| 0 <= i < second.len() ==> (#[trigger] second[i]).outcome->delta == 0,
{
    let earlier = choose|states: Seq<StoreState>|
        {
            &&& #[trigger] pass_through(from, states, first)
            &&& states.first() == before
            &&& states.last() == between
        };
    let later = choose|states: Seq<StoreState>|
        {
            &&& #[trigger] pass_through(from, states, second)
            &&& states.first() == between
            &&& states.last() == after
        };
    assert forall|i: int| 0 <= i < second.len() implies (#[trigger] second[i]).outcome->delta
        == 0 by {
        let id = second[i].source_id@;
        assert(from.has(id));
        let j = choose|j: int| 0 <= j < first.len() && #[trigger] first[j].source_id@ == id;
        let source = from.info(id);
        let dest = mirror_id(source.id, source.hostname);
        let offered = from.events(source.id);
        assert(bucket_synced(from, source, earlier[j], first[j], earlier[j + 1]));
        lemma_sync_catches_up(from, source, earlier[j], first[j], earlier[j + 1]);
        lemma_path_keeps_caught_up(
            from,
            earlier,
            first,
            j + 1,
            first.len() as int,
            dest,
            offered,
        );
        lemma_path_keeps_caught_up(from, later, second, 0, i, dest, offered);
        assert(bucket_synced(from, source, later[i], second[i], later[i + 1]));
        lemma_caught_up_gains_nothing(later[i].events(dest), offered);
    }
}

} // verus!
