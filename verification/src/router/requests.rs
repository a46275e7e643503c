//! How many requests there are for filters, wherever they are.
use super::commit::{after_retention, append_publish, publish_expiry};
use super::datalog::{parked, spread, DataLogState, LogEntry};
use super::logs::{
    find_log, lemma_find_log, lemma_matching, lemma_with_filter, log_index, matching, requests_of,
    waiters_without, with_filter, FilterLogState,
};
use super::messages::{ConnectionId, ConnectionState, DataRequest, RouterConfig};
use super::scheduler::{other_than, ScheduleReason, SchedulerState, TrackerState};
use super::state::{notified, RouterState};
use crate::arena::Slots;
use crate::payload::bytes_content;
use crate::protocol::{Publish, PublishProperties};
use crate::segments::log::Entry;
use std::time::Instant;
use vstd::prelude::*;
use vstd::utf8::decode_utf8;

verus! {

/// How many requests are for filters of a kind.
pub open spec fn asking(requests: Seq<DataRequest>, kind: spec_fn(Seq<char>) -> bool) -> nat
    decreases requests.len(),
{
    if requests.len() == 0 {
        0
    } else {
        asking(requests.drop_last(), kind) + if kind(requests.last().filter@) {
            1nat
        } else {
            0nat
        }
    }
}

/// One filter, as a kind of filters.
pub open spec fn on(filter: Seq<char>) -> spec_fn(Seq<char>) -> bool {
    |f: Seq<char>| f == filter
}

/// How many requests for filters of a kind a connection has: those that are
/// served next, those that wait in a log, and those that are about to be told of
/// something new.
pub open spec fn outstanding(
    trackers: Slots<TrackerState>,
    native: Seq<FilterLogState<LogEntry>>,
    notifications: Seq<(ConnectionId, DataRequest)>,
    id: ConnectionId,
    kind: spec_fn(Seq<char>) -> bool,
) -> nat {
    asking(trackers.at(id).data_requests, kind) + asking(parked(native, id), kind) + asking(
        requests_of(notifications, id),
        kind,
    )
}

impl RouterState {
    /// How many requests for filters of a kind a connection has.
    pub open spec fn asked(self, id: ConnectionId, kind: spec_fn(Seq<char>) -> bool) -> nat {
        outstanding(
            self.scheduler.trackers,
            self.datalog.native,
            self.notifications,
            id,
            kind,
        )
    }
}

/// Whether everyone who waits in a log waits for the filter of the log.
pub open spec fn at_home(log: FilterLogState<LogEntry>) -> bool {
    forall|k: int| 0 <= k < log.waiters.len() ==> (#[trigger] log.waiters[k]).1.filter@ == log.filter
}

pub proof fn lemma_asking_add(
    a: Seq<DataRequest>,
    b: Seq<DataRequest>,
    kind: spec_fn(Seq<char>) -> bool,
)
    ensures
        asking(a + b, kind) == asking(a, kind) + asking(b, kind),
    decreases b.len(),
{
    if b.len() == 0 {
        assert(a + b =~= a);
    } else {
        assert((a + b).drop_last() =~= a + b.drop_last());
        lemma_asking_add(a, b.drop_last(), kind);
    }
}

pub proof fn lemma_asking_push(
    requests: Seq<DataRequest>,
    request: DataRequest,
    kind: spec_fn(Seq<char>) -> bool,
)
    ensures
        asking(requests.push(request), kind) == asking(requests, kind) + if kind(
            request.filter@,
        ) {
            1nat
        } else {
            0nat
        },
{
    assert(requests.push(request).drop_last() =~= requests);
}

/// The first request and the rest are all there are.
pub proof fn lemma_asking_first(requests: Seq<DataRequest>, kind: spec_fn(Seq<char>) -> bool)
    requires
        requests.len() > 0,
    ensures
        asking(requests, kind) == asking(requests.subrange(1, requests.len() as int), kind) + if kind(
            requests[0].filter@,
        ) {
            1nat
        } else {
            0nat
        },
{
    let rest = requests.subrange(1, requests.len() as int);
    let first = Seq::<DataRequest>::empty().push(requests[0]);
    assert(requests =~= first + rest);
    lemma_asking_add(first, rest, kind);
    lemma_asking_push(Seq::empty(), requests[0], kind);
}

/// Requests for the same filters are as many.
pub proof fn lemma_asking_same(
    a: Seq<DataRequest>,
    b: Seq<DataRequest>,
    kind: spec_fn(Seq<char>) -> bool,
)
    requires
        a.len() == b.len(),
        forall|i: int| 0 <= i < a.len() ==> (#[trigger] a[i]).filter@ == b[i].filter@,
    ensures
        asking(a, kind) == asking(b, kind),
    decreases a.len(),
{
    if a.len() > 0 {
        let shorter = a.drop_last();
        assert forall|i: int| 0 <= i < shorter.len() implies (#[trigger] shorter[i]).filter@
            == b.drop_last()[i].filter@ by {
            assert(shorter[i] == a[i]);
        }
        lemma_asking_same(shorter, b.drop_last(), kind);
        assert(a[a.len() - 1].filter@ == b[b.len() - 1].filter@);
    }
}

/// Requests for one filter are not for another.
pub proof fn lemma_asking_elsewhere(
    requests: Seq<DataRequest>,
    home: Seq<char>,
    filter: Seq<char>,
)
    requires
        home != filter,
        forall|i: int| 0 <= i < requests.len() ==> (#[trigger] requests[i]).filter@ == home,
    ensures
        asking(requests, on(filter)) == 0,
    decreases requests.len(),
{
    if requests.len() > 0 {
        let shorter = requests.drop_last();
        assert forall|i: int| 0 <= i < shorter.len() implies (#[trigger] shorter[i]).filter@
            == home by {
            assert(shorter[i] == requests[i]);
        }
        lemma_asking_elsewhere(shorter, home, filter);
        assert(requests[requests.len() - 1].filter@ == home);
    }
}

/// What is left of requests without those for a filter.
pub proof fn lemma_asking_without(requests: Seq<DataRequest>, gone: Seq<char>, filter: Seq<char>)
    ensures
        asking(requests.filter(other_than(gone)), on(filter)) == if filter == gone {
            0
        } else {
            asking(requests, on(filter))
        },
    decreases requests.len(),
{
    reveal(Seq::filter);
    if requests.len() > 0 {
        let last = requests.last();
        lemma_asking_without(requests.drop_last(), gone, filter);
        lemma_asking_push(requests.drop_last().filter(other_than(gone)), last, on(filter));
    }
}

/// Two requests for one filter are counted as two.
pub proof fn lemma_asking_twice(requests: Seq<DataRequest>, i: int, j: int)
    requires
        0 <= i < j < requests.len(),
        requests[i].filter@ == requests[j].filter@,
    ensures
        asking(requests, on(requests[i].filter@)) >= 2,
    decreases requests.len(),
{
    let filter = requests[i].filter@;
    let shorter = requests.drop_last();
    if j < requests.len() - 1 {
        lemma_asking_twice(shorter, i, j);
    } else {
        lemma_asking_once(shorter, i);
    }
}

/// A request for a filter is counted.
pub proof fn lemma_asking_once(requests: Seq<DataRequest>, i: int)
    requires
        0 <= i < requests.len(),
    ensures
        asking(requests, on(requests[i].filter@)) >= 1,
    decreases requests.len(),
{
    if i < requests.len() - 1 {
        lemma_asking_once(requests.drop_last(), i);
    }
}

pub proof fn lemma_requests_of_add(
    a: Seq<(ConnectionId, DataRequest)>,
    b: Seq<(ConnectionId, DataRequest)>,
    id: ConnectionId,
)
    ensures
        requests_of(a + b, id) == requests_of(a, id) + requests_of(b, id),
    decreases b.len(),
{
    if b.len() == 0 {
        assert(a + b =~= a);
    } else {
        assert((a + b).drop_last() =~= a + b.drop_last());
        lemma_requests_of_add(a, b.drop_last(), id);
    }
    assert(requests_of(a + b, id) =~= requests_of(a, id) + requests_of(b, id));
}

/// Those who stay wait for what they waited for.
pub proof fn lemma_requests_of_without(
    waiters: Seq<(ConnectionId, DataRequest)>,
    gone: ConnectionId,
    id: ConnectionId,
)
    ensures
        requests_of(waiters_without(waiters, gone), id) == if id == gone {
            Seq::<DataRequest>::empty()
        } else {
            requests_of(waiters, id)
        },
    decreases waiters.len(),
{
    if waiters.len() > 0 {
        let shorter = waiters.drop_last();
        lemma_requests_of_without(shorter, gone, id);
        if waiters.last().0 != gone {
            let before = waiters_without(shorter, gone);
            assert(before.push(waiters.last()).drop_last() =~= before);
        }
    }
}

/// Who does not wait waits for nothing.
pub proof fn lemma_requests_of_absent(
    waiters: Seq<(ConnectionId, DataRequest)>,
    id: ConnectionId,
)
    requires
        forall|i: int| 0 <= i < waiters.len() ==> (#[trigger] waiters[i]).0 != id,
    ensures
        requests_of(waiters, id) == Seq::<DataRequest>::empty(),
    decreases waiters.len(),
{
    if waiters.len() > 0 {
        let shorter = waiters.drop_last();
        assert forall|i: int| 0 <= i < shorter.len() implies (#[trigger] shorter[i]).0 != id by {
            assert(shorter[i] == waiters[i]);
        }
        lemma_requests_of_absent(shorter, id);
        assert(waiters[waiters.len() - 1].0 != id);
    }
}

/// Who waits in a log waits for its filter.
pub proof fn lemma_requests_at_home(
    waiters: Seq<(ConnectionId, DataRequest)>,
    home: Seq<char>,
    id: ConnectionId,
)
    requires
        forall|k: int| 0 <= k < waiters.len() ==> (#[trigger] waiters[k]).1.filter@ == home,
    ensures
        forall|k: int|
            0 <= k < requests_of(waiters, id).len() ==> (#[trigger] requests_of(
                waiters,
                id,
            )[k]).filter@ == home,
    decreases waiters.len(),
{
    if waiters.len() > 0 {
        let shorter = waiters.drop_last();
        assert forall|k: int| 0 <= k < shorter.len() implies (#[trigger] shorter[k]).1.filter@
            == home by {
            assert(shorter[k] == waiters[k]);
        }
        lemma_requests_at_home(shorter, home, id);
        let before = requests_of(shorter, id);
        let all = requests_of(waiters, id);
        assert(waiters[waiters.len() - 1].1.filter@ == home);
        assert forall|k: int| 0 <= k < all.len() implies (#[trigger] all[k]).filter@ == home by {
            if k < before.len() {
                assert(before[k].filter@ == home);
            }
        }
    }
}

/// Requests in a log that is replaced are counted anew.
pub proof fn lemma_parked_update(
    native: Seq<FilterLogState<LogEntry>>,
    idx: int,
    log: FilterLogState<LogEntry>,
    id: ConnectionId,
    kind: spec_fn(Seq<char>) -> bool,
)
    requires
        0 <= idx < native.len(),
    ensures
        asking(parked(native.update(idx, log), id), kind) + asking(
            requests_of(native[idx].waiters, id),
            kind,
        ) == asking(parked(native, id), kind) + asking(requests_of(log.waiters, id), kind),
    decreases native.len(),
{
    let after = native.update(idx, log);
    let shorter = native.drop_last();
    lemma_asking_add(parked(shorter, id), requests_of(native.last().waiters, id), kind);
    lemma_asking_add(parked(after.drop_last(), id), requests_of(after.last().waiters, id), kind);
    if idx == native.len() - 1 {
        assert(after.drop_last() =~= shorter);
    } else {
        lemma_parked_update(shorter, idx, log, id, kind);
        assert(after.drop_last() =~= shorter.update(idx, log));
    }
}

/// Logs in which a connection waits for the same.
pub proof fn lemma_parked_same(
    a: Seq<FilterLogState<LogEntry>>,
    b: Seq<FilterLogState<LogEntry>>,
    id: ConnectionId,
)
    requires
        a.len() == b.len(),
        forall|i: int|
            0 <= i < a.len() ==> requests_of((#[trigger] a[i]).waiters, id) == requests_of(
                b[i].waiters,
                id,
            ),
    ensures
        parked(a, id) == parked(b, id),
    decreases a.len(),
{
    if a.len() > 0 {
        let shorter = a.drop_last();
        assert forall|i: int| 0 <= i < shorter.len() implies requests_of(
            (#[trigger] shorter[i]).waiters,
            id,
        ) == requests_of(b.drop_last()[i].waiters, id) by {
            assert(shorter[i] == a[i]);
        }
        lemma_parked_same(shorter, b.drop_last(), id);
        assert(requests_of(a[a.len() - 1].waiters, id) == requests_of(
            b[b.len() - 1].waiters,
            id,
        ));
    }
}

/// Who waits in no log has no requests there.
pub proof fn lemma_parked_empty(native: Seq<FilterLogState<LogEntry>>, id: ConnectionId)
    requires
        forall|i: int| 0 <= i < native.len() ==> (#[trigger] native[i]).waiters.len() == 0,
    ensures
        parked(native, id) == Seq::<DataRequest>::empty(),
    decreases native.len(),
{
    if native.len() > 0 {
        let shorter = native.drop_last();
        assert forall|i: int| 0 <= i < shorter.len() implies (#[trigger] shorter[i]).waiters.len()
            == 0 by {
            assert(shorter[i] == native[i]);
        }
        lemma_parked_empty(shorter, id);
        assert(native[native.len() - 1].waiters.len() == 0);
        assert(parked(native, id) =~= Seq::<DataRequest>::empty());
    }
}

/// A request that is put aside is counted once more.
pub proof fn lemma_park_asked(
    native: Seq<FilterLogState<LogEntry>>,
    id: ConnectionId,
    request: DataRequest,
    other: ConnectionId,
    kind: spec_fn(Seq<char>) -> bool,
)
    requires
        request.filter_idx < native.len(),
    ensures
        ({
            let idx = request.filter_idx as int;
            asking(parked(native.update(idx, native[idx].park(id, request)), other), kind)
                == asking(parked(native, other), kind) + if other == id && kind(request.filter@) {
                1nat
            } else {
                0nat
            }
        }),
{
    let idx = request.filter_idx as int;
    let waiters = native[idx].waiters;
    lemma_parked_update(native, idx, native[idx].park(id, request), other, kind);
    assert(waiters.push((id, request)).drop_last() =~= waiters);
    if other == id {
        lemma_asking_push(requests_of(waiters, id), request, kind);
    }
}

/// A log that is opened holds no requests.
pub proof fn lemma_parked_opened(
    native: Seq<FilterLogState<LogEntry>>,
    filter: Seq<char>,
    config: RouterConfig,
    id: ConnectionId,
)
    ensures
        parked(with_filter(native, filter, config), id) == parked(native, id),
{
    let after = with_filter(native, filter, config);
    if find_log(native, filter) is None {
        assert(after.drop_last() =~= native);
        assert(parked(after, id) =~= parked(native, id));
    }
}

/// Who waits nowhere for a filter has no request for it in any log.
pub proof fn lemma_parked_elsewhere(
    native: Seq<FilterLogState<LogEntry>>,
    id: ConnectionId,
    filter: Seq<char>,
)
    requires
        forall|i: int| 0 <= i < native.len() ==> at_home(#[trigger] native[i]),
        forall|i: int|
            0 <= i < native.len() ==> (#[trigger] native[i]).filter != filter || requests_of(
                native[i].waiters,
                id,
            ).len() == 0,
    ensures
        asking(parked(native, id), on(filter)) == 0,
    decreases native.len(),
{
    if native.len() > 0 {
        let shorter = native.drop_last();
        let last = native[native.len() - 1];
        assert forall|i: int| 0 <= i < shorter.len() implies at_home(#[trigger] shorter[i]) by {
            assert(shorter[i] == native[i]);
        }
        assert forall|i: int| 0 <= i < shorter.len() implies (#[trigger] shorter[i]).filter
            != filter || requests_of(shorter[i].waiters, id).len() == 0 by {
            assert(shorter[i] == native[i]);
        }
        lemma_parked_elsewhere(shorter, id, filter);
        lemma_asking_add(parked(shorter, id), requests_of(last.waiters, id), on(filter));
        assert(at_home(last));
        if last.filter != filter {
            lemma_requests_at_home(last.waiters, last.filter, id);
            lemma_asking_elsewhere(requests_of(last.waiters, id), last.filter, filter);
        }
    }
}

/// What waits in the logs moves to those who are to be told, and nothing is
/// lost.
pub proof fn lemma_append_items_asking(
    datalog: DataLogState,
    items: Seq<(usize, LogEntry)>,
    id: ConnectionId,
    kind: spec_fn(Seq<char>) -> bool,
)
    requires
        datalog.wf(),
        forall|k: int| 0 <= k < items.len() ==> (#[trigger] items[k]).0 < datalog.native.len(),
    ensures
        asking(parked(datalog.append_items(items).native, id), kind) + asking(
            requests_of(datalog.woken(items), id),
            kind,
        ) == asking(parked(datalog.native, id), kind),
    decreases items.len(),
{
    if items.len() > 0 {
        let shorter = items.drop_last();
        assert forall|k: int| 0 <= k < shorter.len() implies (#[trigger] shorter[k]).0
            < datalog.native.len() by {
            assert(shorter[k] == items[k]);
        }
        assert(items[items.len() - 1] == items.last());
        lemma_append_items_asking(datalog, shorter, id, kind);
        datalog.lemma_append_items(shorter);
        let before = datalog.append_items(shorter);
        let idx = items.last().0 as int;
        let log = before.native[idx].append(
            items.last().1,
            LogEntry::weight(items.last().1),
        ).drained();
        lemma_parked_update(before.native, idx, log, id, kind);
        let told = datalog.woken(shorter);
        let more = before.native[idx].waiters;
        lemma_requests_of_add(told, more, id);
        lemma_asking_add(requests_of(told, id), requests_of(more, id), kind);
    }
}

/// A publish takes no request from any connection, and gives none.
pub proof fn lemma_append_publish_asking(
    datalog: DataLogState,
    connection: ConnectionState,
    publish: Publish,
    props: Option<PublishProperties>,
    now: Instant,
    id: ConnectionId,
    kind: spec_fn(Seq<char>) -> bool,
)
    requires
        datalog.wf(),
        append_publish(datalog, connection, publish, props, now).datalog.native.len()
            <= usize::MAX,
    ensures
        ({
            let appended = append_publish(datalog, connection, publish, props, now);
            asking(parked(appended.datalog.native, id), kind) + asking(
                requests_of(appended.woken, id),
                kind,
            ) == asking(parked(datalog.native, id), kind)
        }),
{
    let appended = append_publish(datalog, connection, publish, props, now);
    let topic = decode_utf8(bytes_content(publish.topic));
    let kept = after_retention(datalog, topic, publish, props);
    let entry = LogEntry {
        publish: Publish { retain: false, ..publish },
        expiry: publish_expiry(props, now),
    };
    let idxs = matching(kept.native, topic);
    if appended.outcome is Ok {
        lemma_matching(kept.native, topic);
        if idxs.len() > 0 {
            lemma_append_items_asking(kept, spread(idxs, entry), id, kind);
        } else {
            lemma_find_log(kept.native, topic);
            let opened = kept.ensure_log(topic);
            let items = spread(seq![log_index(kept.native, topic)], entry);
            assert(items.drop_last() =~= Seq::<(usize, LogEntry)>::empty());
            assert(items.last() == (log_index(kept.native, topic), entry));
            assert(opened.append_items(items.drop_last()) == opened);
            assert(opened.append_items(items).native.len() == opened.native.len());
            lemma_with_filter(kept.native, topic, kept.config);
            lemma_parked_opened(kept.native, topic, kept.config, id);
            lemma_append_items_asking(opened, items, id, kind);
        }
    }
}

impl RouterState {
    /// A publish takes no request from any connection, and gives none.
    pub proof fn lemma_published_asked(
        self,
        publisher: ConnectionId,
        publish: Publish,
        props: Option<PublishProperties>,
        now: Instant,
        id: ConnectionId,
        kind: spec_fn(Seq<char>) -> bool,
    )
        requires
            self.datalog.wf(),
            self.published(publisher, publish, props, now).fits(),
        ensures
            self.published(publisher, publish, props, now).asked(id, kind) == self.asked(id, kind),
    {
        let connection = self.connections.at(publisher);
        let appended = append_publish(self.datalog, connection, publish, props, now);
        lemma_append_publish_asking(self.datalog, connection, publish, props, now, id, kind);
        lemma_requests_of_add(self.notifications, appended.woken, id);
        lemma_asking_add(
            requests_of(self.notifications, id),
            requests_of(appended.woken, id),
            kind,
        );
    }
}

/// Those who are told have as many requests more as they were told of.
pub proof fn lemma_notified_asking(
    scheduler: SchedulerState,
    notifications: Seq<(ConnectionId, DataRequest)>,
    id: ConnectionId,
    kind: spec_fn(Seq<char>) -> bool,
)
    requires
        scheduler.trackers.has(id),
    ensures
        notified(scheduler, notifications).trackers.has(id),
        asking(notified(scheduler, notifications).trackers.at(id).data_requests, kind) == asking(
            scheduler.trackers.at(id).data_requests,
            kind,
        ) + asking(requests_of(notifications, id), kind),
    decreases notifications.len(),
{
    if notifications.len() > 0 {
        let shorter = notifications.drop_last();
        let last = notifications.last();
        lemma_notified_asking(scheduler, shorter, id, kind);
        let before = notified(scheduler, shorter);
        if last.0 == id {
            lemma_asking_push(before.trackers.at(id).data_requests, last.1, kind);
            lemma_asking_push(requests_of(shorter, id), last.1, kind);
        }
        let more = before.track(last.0, last.1);
        assert(more.trackers.has(id));
        assert(more.reschedule(last.0, ScheduleReason::FreshData).trackers.at(id).data_requests
            == more.trackers.at(id).data_requests);
    }
}

} // verus!
