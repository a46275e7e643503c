//! What holds of a router between any two of its steps.
use super::alertlog::{AlertLogState, AlertView};
use super::commit::{after_retention, append_publish, publish_expiry};
use super::datalog::{
    deliverable, parked, replayed, span, spread, DataLogState, LogEntry, RetainedView,
};
use super::delivery::{forwards, jump_text, position_start, read_len, serve, with_acks};
use super::graveyard::{retrieved, SavedStateView};
use super::iobufs::{IncomingState, OutgoingState};
use super::logs::{
    find_log, lemma_find_log, lemma_matching, lemma_with_filter, log_index, matching,
    requests_of, waiters_without, AckLogState, FilterLogState,
};
use super::messages::{
    record_event, AckView, ConnectionId, ConnectionState, DataRequest, RouterMeter, MAX_EVENTS,
};
use super::requests::at_home;
use super::scheduler::{
    other_than, PauseReason, ScheduleReason, SchedulerState, Status, TrackerState,
};
use super::state::{
    all_rewound, connection_event, disconnection_event, lists, notified, will_publish, RouterState,
    Subscribing, Turn,
};
use crate::arena::Slots;
use crate::clock::Moment;
use crate::payload::bytes_content;
use crate::protocol::{
    ConnAck, ConnectReturnCode, Filter, Packet, Publish, PublishProperties,
};
use crate::registry::lemma_push_contains;
use crate::segments::log::Offset;
use std::time::Instant;
use vstd::prelude::*;
use vstd::utf8::decode_utf8;

verus! {

/// Whether two tables have rows under the same keys, and hand out the same keys
/// next.
pub open spec fn same_shape<A, B>(a: Slots<A>, b: Slots<B>) -> bool {
    &&& a.vacant == b.vacant
    &&& a.rows.len() == b.rows.len()
    &&& forall|key: usize|
        #![trigger a.has(key)]
        #![trigger b.has(key)]
        a.has(key) == b.has(key)
}

/// Whether a request is for the log of its filter, at a quality of service that
/// can be served.
pub open spec fn request_ok(logs: Seq<FilterLogState<LogEntry>>, request: DataRequest) -> bool {
    &&& request.qos <= 1
    &&& request.filter_idx < logs.len()
    &&& logs[request.filter_idx as int].filter == request.filter@
}

pub open spec fn requests_ok(
    logs: Seq<FilterLogState<LogEntry>>,
    requests: Seq<DataRequest>,
) -> bool {
    forall|i: int| 0 <= i < requests.len() ==> request_ok(logs, #[trigger] requests[i])
}

/// Whether those who wait are connected, for something that can be served.
pub open spec fn waiters_ok(
    logs: Seq<FilterLogState<LogEntry>>,
    obufs: Slots<OutgoingState>,
    waiters: Seq<(ConnectionId, DataRequest)>,
) -> bool {
    forall|i: int|
        0 <= i < waiters.len() ==> obufs.has((#[trigger] waiters[i]).0) && request_ok(
            logs,
            waiters[i].1,
        )
}

/// Whether all who wait in any log are connected, and wait for the filter of the
/// log.
pub open spec fn parked_ok(
    logs: Seq<FilterLogState<LogEntry>>,
    obufs: Slots<OutgoingState>,
) -> bool {
    forall|i: int|
        0 <= i < logs.len() ==> waiters_ok(logs, obufs, (#[trigger] logs[i]).waiters) && at_home(
            logs[i],
        )
}

/// Whether all that connections ask for can be served.
pub open spec fn trackers_ok(
    logs: Seq<FilterLogState<LogEntry>>,
    scheduler: SchedulerState,
) -> bool {
    forall|id: ConnectionId| #[trigger]
        scheduler.trackers.has(id) ==> requests_ok(logs, scheduler.trackers.at(id).data_requests)
}

/// Whether a connection is there and subscribed to a filter.
pub open spec fn subscribes(
    connections: Slots<ConnectionState>,
    filter: Seq<char>,
    id: ConnectionId,
) -> bool {
    connections.has(id) && connections.at(id).subscriptions.contains(filter)
}

/// A connection that is ready has its turn coming.
pub open spec fn ready_queued(scheduler: SchedulerState) -> bool {
    forall|id: ConnectionId| #[trigger]
        scheduler.trackers.has(id) && scheduler.trackers.at(id).status is Ready
            ==> scheduler.readyqueue.contains(id)
}

/// Whether a step of the scheduler leaves the connections as they are, and in
/// order.
pub open spec fn scheduler_step(
    logs: Seq<FilterLogState<LogEntry>>,
    before: SchedulerState,
    after: SchedulerState,
) -> bool {
    &&& same_shape(before.trackers, after.trackers)
    &&& forall|id: ConnectionId| #[trigger]
        after.trackers.has(id) ==> after.trackers.at(id).id == before.trackers.at(id).id
    &&& trackers_ok(logs, after)
    &&& ready_queued(after)
}

/// Whether logs are still there, at the same positions.
pub open spec fn filters_extend(
    before: Seq<FilterLogState<LogEntry>>,
    after: Seq<FilterLogState<LogEntry>>,
) -> bool {
    &&& before.len() <= after.len()
    &&& forall|i: int|
        0 <= i < before.len() ==> (#[trigger] after[i]).filter == before[i].filter
}

impl RouterState {
    /// The tables have a row for every connection and for nothing else, and no
    /// more rows than there may be connections.
    pub open spec fn tables_ok(self) -> bool {
        &&& self.config.valid()
        &&& self.connections.wf()
        &&& self.connections.rows.len() <= self.config.max_connections
        &&& same_shape(self.connections, self.ibufs)
        &&& same_shape(self.connections, self.obufs)
        &&& same_shape(self.connections, self.ackslog)
        &&& same_shape(self.connections, self.scheduler.trackers)
        &&& self.router_meters.total_connections == self.connections.count()
    }

    pub open spec fn logs_ok(self) -> bool {
        &&& self.datalog.wf()
        &&& self.datalog.config == self.config
        &&& self.alertlog.wf()
        &&& self.alertlog.config == self.config
    }

    /// Every client has one connection, and every connection one client.
    pub open spec fn clients_ok(self) -> bool {
        &&& forall|client_id: Seq<char>| #[trigger]
            self.connection_map.contains_key(client_id) ==> {
                &&& self.obufs.has(self.connection_map[client_id])
                &&& self.obufs.at(self.connection_map[client_id]).client_id == client_id
            }
        &&& forall|id: ConnectionId| #[trigger]
            self.obufs.has(id) ==> {
                &&& self.connection_map.contains_key(self.obufs.at(id).client_id)
                &&& self.connection_map[self.obufs.at(id).client_id] == id
                &&& self.scheduler.trackers.at(id).id == self.obufs.at(id).client_id
            }
    }

    /// Those who are listed under a filter are those who are subscribed to it.
    pub open spec fn subscriptions_ok(self) -> bool {
        forall|filter: Seq<char>, id: ConnectionId|
            #![trigger lists(self.subscription_map, filter, id)]
            #![trigger subscribes(self.connections, filter, id)]
            lists(self.subscription_map, filter, id) <==> subscribes(self.connections, filter, id)
    }

    /// Who waits is connected, and waits for something that can be served.
    pub open spec fn waiting_ok(self) -> bool {
        &&& parked_ok(self.datalog.native, self.obufs)
        &&& waiters_ok(self.datalog.native, self.obufs, self.notifications)
    }

    pub open spec fn tracked_ok(self) -> bool {
        trackers_ok(self.datalog.native, self.scheduler)
    }

    /// What is saved is saved under the id of its client, and can be served.
    pub open spec fn graves_ok(self) -> bool {
        forall|client_id: Seq<char>| #[trigger]
            self.graveyard.contains_key(client_id) ==> {
                &&& self.graveyard[client_id].tracker.id == client_id
                &&& self.graveyard[client_id].tracker.status == Status::Paused(PauseReason::Busy)
                &&& self.graveyard[client_id].metrics.len() <= MAX_EVENTS
                &&& requests_ok(
                    self.datalog.native,
                    self.graveyard[client_id].tracker.data_requests,
                )
            }
    }

    pub open spec fn history_ok(self) -> bool {
        forall|id: ConnectionId| #[trigger]
            self.connections.has(id) ==> self.connections.at(id).events.len() <= MAX_EVENTS
    }

    pub open spec fn queue_ok(self) -> bool {
        ready_queued(self.scheduler)
    }

    /// The filters that alerts are wanted for have logs.
    pub open spec fn alerts_ok(self) -> bool {
        &&& self.alerts.wf()
        &&& forall|id: usize, k: int|
            self.alerts.has(id) && 0 <= k < self.alerts.at(id).len() ==> self.alertlog.has(
                (#[trigger] self.alerts.at(id)[k]).0,
            )
    }

    pub open spec fn inv(self) -> bool {
        &&& self.tables_ok()
        &&& self.logs_ok()
        &&& self.clients_ok()
        &&& self.subscriptions_ok()
        &&& self.waiting_ok()
        &&& self.tracked_ok()
        &&& self.graves_ok()
        &&& self.history_ok()
        &&& self.queue_ok()
        &&& self.alerts_ok()
    }
}

/// A row that is replaced leaves the shape of a table as it is.
pub proof fn lemma_set_shape<A>(slots: Slots<A>, key: usize, row: A)
    requires
        slots.has(key),
    ensures
        same_shape(slots, slots.set(key, row)),
        slots.set(key, row).at(key) == row,
        forall|other: usize|
            slots.has(other) && other != key ==> #[trigger] slots.set(key, row).at(other)
                == slots.at(other),
{
    assert forall|other: usize| #[trigger] slots.has(other) == #[trigger] slots.set(
        key,
        row,
    ).has(other) by {}
}

pub proof fn lemma_insert_shape<A, B>(a: Slots<A>, b: Slots<B>, x: A, y: B)
    requires
        same_shape(a, b),
        a.wf(),
        a.vacant.len() > 0 || a.rows.len() < usize::MAX,
    ensures
        same_shape(a.insert(x), b.insert(y)),
        a.next_key() == b.next_key(),
        !a.has(a.next_key()),
        a.insert(x).has(a.next_key()),
        a.insert(x).at(a.next_key()) == x,
        b.insert(y).at(a.next_key()) == y,
        forall|key: usize| #[trigger] a.insert(x).has(key) <==> a.has(key) || key == a.next_key(),
        forall|key: usize| #[trigger] b.insert(y).has(key) <==> b.has(key) || key == a.next_key(),
        forall|key: usize| a.has(key) ==> #[trigger] a.insert(x).at(key) == a.at(key),
        forall|key: usize| b.has(key) ==> #[trigger] b.insert(y).at(key) == b.at(key),
{
    if a.vacant.len() > 0 {
        assert(a.vacant[a.vacant.len() - 1] < a.rows.len());
    }
    assert forall|key: usize| #[trigger] a.insert(x).has(key) <==> a.has(key) || key
        == a.next_key() by {}
    assert forall|key: usize| #[trigger] a.insert(x).has(key) == #[trigger] b.insert(y).has(
        key,
    ) by {
        assert(a.has(key) == b.has(key));
    }
}

pub proof fn lemma_insert_wf<A>(a: Slots<A>, x: A)
    requires
        a.wf(),
        a.vacant.len() > 0 || a.rows.len() < usize::MAX,
    ensures
        a.insert(x).wf(),
        a.insert(x).count() == a.count() + 1,
{
    let after = a.insert(x);
    if a.vacant.len() > 0 {
        let key = a.vacant.last();
        assert(a.vacant[a.vacant.len() - 1] == key);
        assert forall|k: int|
            0 <= k < after.rows.len() && #[trigger] after.rows[k] is None implies after.vacant.contains(
            k as usize,
        ) by {
            assert(a.rows[k] is None);
            let i = choose|i: int| 0 <= i < a.vacant.len() && a.vacant[i] == k as usize;
            assert(after.vacant[i] == k as usize);
        }
    } else {
        assert forall|k: int| 0 <= k < after.rows.len() implies #[trigger] after.rows[k] is Some by {
            if k < a.rows.len() && a.rows[k] is None {
                assert(a.vacant.contains(k as usize));
            }
        }
    }
}

pub proof fn lemma_remove_shape<A, B>(a: Slots<A>, b: Slots<B>, key: usize)
    requires
        same_shape(a, b),
        a.has(key),
    ensures
        same_shape(a.remove(key), b.remove(key)),
        !a.remove(key).has(key),
        forall|other: usize| #[trigger] a.remove(key).has(other) <==> a.has(other) && other != key,
        forall|other: usize|
            a.has(other) && other != key ==> #[trigger] a.remove(key).at(other) == a.at(other),
        forall|other: usize|
            b.has(other) && other != key ==> #[trigger] b.remove(key).at(other) == b.at(other),
{
    assert(b.has(key));
    assert forall|other: usize| #[trigger] a.remove(key).has(other) <==> a.has(other) && other
        != key by {}
    assert forall|other: usize| #[trigger] b.remove(key).has(other) <==> b.has(other) && other
        != key by {}
    assert forall|other: usize| #[trigger] a.remove(key).has(other) == #[trigger] b.remove(
        key,
    ).has(other) by {
        assert(a.has(other) == b.has(other));
    }
}

pub proof fn lemma_remove_wf<A>(a: Slots<A>, key: usize)
    requires
        a.wf(),
        a.has(key),
    ensures
        a.remove(key).wf(),
        a.remove(key).count() == a.count() - 1,
{
    let after = a.remove(key);
    assert forall|k: int|
        0 <= k < after.rows.len() && #[trigger] after.rows[k] is None implies after.vacant.contains(
        k as usize,
    ) by {
        if k == key {
            assert(after.vacant[a.vacant.len() as int] == key);
        } else {
            assert(a.rows[k] is None);
            let i = choose|i: int| 0 <= i < a.vacant.len() && a.vacant[i] == k as usize;
            assert(after.vacant[i] == k as usize);
        }
    }
    assert forall|i: int, j: int| 0 <= i < j < after.vacant.len() implies after.vacant[i]
        != after.vacant[j] by {
        if j == a.vacant.len() {
            assert(after.vacant[i] == a.vacant[i]);
            assert(a.rows[a.vacant[i] as int] is None);
        }
    }
    assert forall|i: int| 0 <= i < after.vacant.len() implies (#[trigger] after.vacant[i])
        < after.rows.len() && after.rows[after.vacant[i] as int] is None by {
        if i < a.vacant.len() {
            assert(after.vacant[i] == a.vacant[i]);
        }
    }
}

/// A router starts out in order.
pub proof fn lemma_new_inv(id: usize, config: super::messages::RouterConfig)
    requires
        config.valid(),
    ensures
        RouterState::new(id, config).inv(),
{
}

impl RouterState {
    pub proof fn lemma_with_ack(self, id: ConnectionId, ack: AckView)
        requires
            self.inv(),
            self.live(id),
        ensures
            self.with_ack(id, ack).inv(),
    {
        assert(self.ackslog.has(id)) by {
            assert(self.connections.has(id) == self.obufs.has(id));
            assert(self.connections.has(id) == self.ackslog.has(id));
        }
        lemma_set_shape(self.ackslog, id, self.ackslog.at(id).commit(ack));
    }

    pub proof fn lemma_with_meters(self, meters: RouterMeter)
        requires
            self.inv(),
            meters.total_connections == self.router_meters.total_connections,
        ensures
            (RouterState { router_meters: meters, ..self }).inv(),
    {
    }

    pub proof fn lemma_with_alert(self, alert: AlertView)
        requires
            self.inv(),
        ensures
            self.with_alert(alert).inv(),
    {
        self.alertlog.lemma_append(alert);
        let after = self.with_alert(alert);
        assert forall|id: usize, k: int|
            after.alerts.has(id) && 0 <= k < after.alerts.at(id).len() implies after.alertlog.has(
            (#[trigger] after.alerts.at(id)[k]).0,
        ) by {
            let filter = after.alerts.at(id)[k].0;
            assert(self.alertlog.has(self.alerts.at(id)[k].0));
            assert(find_log(self.alertlog.append(alert).native, filter) == find_log(
                self.alertlog.native,
                filter,
            ));
        }
    }
}

pub proof fn lemma_track(
    logs: Seq<FilterLogState<LogEntry>>,
    scheduler: SchedulerState,
    id: ConnectionId,
    request: DataRequest,
)
    requires
        trackers_ok(logs, scheduler),
        ready_queued(scheduler),
        request_ok(logs, request),
    ensures
        scheduler_step(logs, scheduler, scheduler.track(id, request)),
{
    if scheduler.trackers.has(id) {
        lemma_set_shape(scheduler.trackers, id, scheduler.trackers.at(id).register(request));
    }
}

pub proof fn lemma_trackv(
    logs: Seq<FilterLogState<LogEntry>>,
    scheduler: SchedulerState,
    id: ConnectionId,
    requests: Seq<DataRequest>,
)
    requires
        trackers_ok(logs, scheduler),
        ready_queued(scheduler),
        requests_ok(logs, requests),
    ensures
        scheduler_step(logs, scheduler, scheduler.trackv(id, requests)),
{
    if scheduler.trackers.has(id) {
        let tracker = scheduler.trackers.at(id);
        lemma_set_shape(
            scheduler.trackers,
            id,
            TrackerState { data_requests: tracker.data_requests + requests, ..tracker },
        );
    }
}

pub proof fn lemma_untrack(
    logs: Seq<FilterLogState<LogEntry>>,
    scheduler: SchedulerState,
    id: ConnectionId,
    filter: Seq<char>,
)
    requires
        trackers_ok(logs, scheduler),
        ready_queued(scheduler),
    ensures
        scheduler_step(logs, scheduler, scheduler.untrack(id, filter)),
{
    if scheduler.trackers.has(id) {
        let tracker = scheduler.trackers.at(id);
        lemma_set_shape(scheduler.trackers, id, tracker.unregister(filter));
        lemma_filter_ok(logs, tracker.data_requests, other_than(filter));
    }
}

/// Some of the requests can be served where all can.
proof fn lemma_filter_ok(
    logs: Seq<FilterLogState<LogEntry>>,
    requests: Seq<DataRequest>,
    keep: spec_fn(DataRequest) -> bool,
)
    requires
        requests_ok(logs, requests),
    ensures
        requests_ok(logs, requests.filter(keep)),
    decreases requests.len(),
{
    reveal(Seq::filter);
    if requests.len() > 0 {
        lemma_filter_ok(logs, requests.drop_last(), keep);
        assert(request_ok(logs, requests[requests.len() - 1]));
    }
}

pub proof fn lemma_reschedule(
    logs: Seq<FilterLogState<LogEntry>>,
    scheduler: SchedulerState,
    id: ConnectionId,
    reason: ScheduleReason,
)
    requires
        trackers_ok(logs, scheduler),
        ready_queued(scheduler),
    ensures
        scheduler_step(logs, scheduler, scheduler.reschedule(id, reason)),
{
    let after = scheduler.reschedule(id, reason);
    if after != scheduler {
        lemma_set_shape(
            scheduler.trackers,
            id,
            TrackerState { status: Status::Ready, ..scheduler.trackers.at(id) },
        );
        assert forall|other: ConnectionId| #[trigger]
            after.trackers.has(other) && after.trackers.at(
                other,
            ).status is Ready implies after.readyqueue.contains(other) by {
            lemma_push_contains(scheduler.readyqueue, id, other);
            if other != id {
                assert(scheduler.trackers.has(other));
            }
        }
    }
}

pub proof fn lemma_pause(
    logs: Seq<FilterLogState<LogEntry>>,
    scheduler: SchedulerState,
    id: ConnectionId,
    reason: PauseReason,
)
    requires
        trackers_ok(logs, scheduler),
        ready_queued(scheduler),
    ensures
        scheduler_step(logs, scheduler, scheduler.pause(id, reason)),
{
    if scheduler.trackers.has(id) {
        let after = scheduler.pause(id, reason);
        lemma_set_shape(scheduler.trackers, id, scheduler.trackers.at(id).pause(reason));
        assert forall|other: ConnectionId| #[trigger]
            after.trackers.has(other) && after.trackers.at(
                other,
            ).status is Ready implies after.readyqueue.contains(other) by {
            assert(other != id);
            assert(scheduler.trackers.has(other));
            let i = choose|i: int|
                0 <= i < scheduler.readyqueue.len() && scheduler.readyqueue[i] == other;
            assert(after.readyqueue[i] == other);
        }
    }
}

pub proof fn lemma_polled(logs: Seq<FilterLogState<LogEntry>>, scheduler: SchedulerState)
    requires
        trackers_ok(logs, scheduler),
        ready_queued(scheduler),
        scheduler.readyqueue.len() > 0,
    ensures
        scheduler_step(logs, scheduler, scheduler.polled()),
        requests_ok(logs, scheduler.polled_requests()),
{
    let id = scheduler.readyqueue[0];
    let after = scheduler.polled();
    let rest = scheduler.readyqueue.subrange(1, scheduler.readyqueue.len() as int);
    if scheduler.trackers.has(id) {
        lemma_set_shape(
            scheduler.trackers,
            id,
            TrackerState { data_requests: Seq::empty(), ..scheduler.trackers.at(id) },
        );
    }
    assert forall|other: ConnectionId| #[trigger]
        after.trackers.has(other) && after.trackers.at(
            other,
        ).status is Ready implies after.readyqueue.contains(other) by {
        assert(scheduler.trackers.has(other));
        lemma_push_contains(rest, id, other);
        if other != id {
            let i = choose|i: int|
                0 <= i < scheduler.readyqueue.len() && scheduler.readyqueue[i] == other;
            assert(rest[i - 1] == other);
        }
    }
}

pub proof fn lemma_notified(
    logs: Seq<FilterLogState<LogEntry>>,
    obufs: Slots<OutgoingState>,
    scheduler: SchedulerState,
    notifications: Seq<(ConnectionId, DataRequest)>,
)
    requires
        trackers_ok(logs, scheduler),
        ready_queued(scheduler),
        waiters_ok(logs, obufs, notifications),
    ensures
        scheduler_step(logs, scheduler, notified(scheduler, notifications)),
    decreases notifications.len(),
{
    if notifications.len() > 0 {
        let before = notifications.drop_last();
        let last = notifications.last();
        assert(notifications[notifications.len() - 1] == last);
        assert forall|i: int| 0 <= i < before.len() implies obufs.has((#[trigger] before[i]).0)
            && request_ok(logs, before[i].1) by {
            assert(before[i] == notifications[i]);
        }
        lemma_notified(logs, obufs, scheduler, before);
        let told = notified(scheduler, before);
        lemma_track(logs, told, last.0, last.1);
        lemma_reschedule(logs, told.track(last.0, last.1), last.0, ScheduleReason::FreshData);
    }
}

impl RouterState {
    /// A step of the scheduler leaves a router in order.
    pub proof fn lemma_with_scheduler(self, scheduler: SchedulerState)
        requires
            self.inv(),
            scheduler_step(self.datalog.native, self.scheduler, scheduler),
        ensures
            (RouterState { scheduler, ..self }).inv(),
    {
        let after = RouterState { scheduler, ..self };
        assert(same_shape(after.connections, after.scheduler.trackers));
        assert forall|id: ConnectionId| #[trigger] after.obufs.has(id) implies {
            &&& after.connection_map.contains_key(after.obufs.at(id).client_id)
            &&& after.connection_map[after.obufs.at(id).client_id] == id
            &&& after.scheduler.trackers.at(id).id == after.obufs.at(id).client_id
        } by {
            assert(self.obufs.has(id));
            assert(self.connections.has(id));
            assert(after.scheduler.trackers.has(id));
        }
    }

    pub proof fn lemma_rescheduled(self, id: ConnectionId, reason: ScheduleReason)
        requires
            self.inv(),
        ensures
            self.rescheduled(id, reason).inv(),
    {
        lemma_reschedule(self.datalog.native, self.scheduler, id, reason);
        self.lemma_with_scheduler(self.scheduler.reschedule(id, reason));
    }

    pub proof fn lemma_settled(self)
        requires
            self.inv(),
        ensures
            self.settled().inv(),
            self.settled().notifications.len() == 0,
    {
        lemma_notified(self.datalog.native, self.obufs, self.scheduler, self.notifications);
        self.lemma_with_scheduler(notified(self.scheduler, self.notifications));
    }
}

/// What could be served still can where the logs are still there.
pub proof fn lemma_extend_requests(
    before: Seq<FilterLogState<LogEntry>>,
    after: Seq<FilterLogState<LogEntry>>,
    requests: Seq<DataRequest>,
)
    requires
        filters_extend(before, after),
        requests_ok(before, requests),
    ensures
        requests_ok(after, requests),
{
    assert forall|i: int| 0 <= i < requests.len() implies request_ok(
        after,
        #[trigger] requests[i],
    ) by {
        assert(request_ok(before, requests[i]));
        assert(after[requests[i].filter_idx as int].filter == requests[i].filter@);
    }
}

pub proof fn lemma_extend_waiters(
    before: Seq<FilterLogState<LogEntry>>,
    after: Seq<FilterLogState<LogEntry>>,
    obufs: Slots<OutgoingState>,
    waiters: Seq<(ConnectionId, DataRequest)>,
)
    requires
        filters_extend(before, after),
        waiters_ok(before, obufs, waiters),
    ensures
        waiters_ok(after, obufs, waiters),
{
    assert forall|i: int| 0 <= i < waiters.len() implies obufs.has((#[trigger] waiters[i]).0)
        && request_ok(after, waiters[i].1) by {
        assert(request_ok(before, waiters[i].1));
        assert(after[waiters[i].1.filter_idx as int].filter == waiters[i].1.filter@);
    }
}

/// Logs of the same filters in which nobody new waits are in order.
pub proof fn lemma_extend_parked(
    before: Seq<FilterLogState<LogEntry>>,
    after: Seq<FilterLogState<LogEntry>>,
    obufs: Slots<OutgoingState>,
)
    requires
        filters_extend(before, after),
        parked_ok(before, obufs),
        forall|i: int|
            0 <= i < after.len() ==> (#[trigger] after[i]).waiters.len() == 0 || (i < before.len()
                && after[i].waiters == before[i].waiters),
    ensures
        parked_ok(after, obufs),
{
    assert forall|i: int| 0 <= i < after.len() implies waiters_ok(
        after,
        obufs,
        (#[trigger] after[i]).waiters,
    ) && at_home(after[i]) by {
        if after[i].waiters.len() > 0 {
            lemma_extend_waiters(before, after, obufs, before[i].waiters);
            assert(at_home(before[i]));
        }
    }
}

/// Entries that are appended move those who waited for them, and nothing else.
pub proof fn lemma_append_items_ok(
    datalog: DataLogState,
    obufs: Slots<OutgoingState>,
    items: Seq<(usize, LogEntry)>,
)
    requires
        datalog.wf(),
        parked_ok(datalog.native, obufs),
        forall|k: int| 0 <= k < items.len() ==> (#[trigger] items[k]).0 < datalog.native.len(),
    ensures
        datalog.append_items(items).wf(),
        datalog.append_items(items).config == datalog.config,
        filters_extend(datalog.native, datalog.append_items(items).native),
        datalog.append_items(items).native.len() == datalog.native.len(),
        parked_ok(datalog.append_items(items).native, obufs),
        waiters_ok(datalog.append_items(items).native, obufs, datalog.woken(items)),
    decreases items.len(),
{
    datalog.lemma_append_items(items);
    if items.len() > 0 {
        let shorter = items.drop_last();
        assert forall|k: int| 0 <= k < shorter.len() implies (#[trigger] shorter[k]).0
            < datalog.native.len() by {
            assert(shorter[k] == items[k]);
        }
        assert(items[items.len() - 1].0 < datalog.native.len());
        lemma_append_items_ok(datalog, obufs, shorter);
        let before = datalog.append_items(shorter);
        let after = datalog.append_items(items);
        let idx = items.last().0;
        assert(filters_extend(before.native, after.native));
        lemma_extend_parked(before.native, after.native, obufs);
        lemma_extend_waiters(before.native, after.native, obufs, datalog.woken(shorter));
        lemma_extend_waiters(
            before.native,
            after.native,
            obufs,
            before.native[idx as int].waiters,
        );
    }
}

/// A publish leaves the logs in order.
pub proof fn lemma_append_publish(
    datalog: DataLogState,
    obufs: Slots<OutgoingState>,
    connection: ConnectionState,
    publish: Publish,
    props: Option<PublishProperties>,
    now: Instant,
)
    requires
        datalog.wf(),
        append_publish(datalog, connection, publish, props, now).datalog.native.len()
            <= usize::MAX,
        parked_ok(datalog.native, obufs),
    ensures
        append_publish(datalog, connection, publish, props, now).datalog.wf(),
        append_publish(datalog, connection, publish, props, now).datalog.config == datalog.config,
        filters_extend(
            datalog.native,
            append_publish(datalog, connection, publish, props, now).datalog.native,
        ),
        parked_ok(append_publish(datalog, connection, publish, props, now).datalog.native, obufs),
        waiters_ok(
            append_publish(datalog, connection, publish, props, now).datalog.native,
            obufs,
            append_publish(datalog, connection, publish, props, now).woken,
        ),
        append_publish(datalog, connection, publish, props, now).outcome is Err ==> append_publish(
            datalog,
            connection,
            publish,
            props,
            now,
        ).woken.len() == 0,
{
    let topic = decode_utf8(bytes_content(publish.topic));
    let kept = after_retention(datalog, topic, publish, props);
    let entry = LogEntry {
        publish: Publish { retain: false, ..publish },
        expiry: publish_expiry(props, now),
    };
    let idxs = matching(kept.native, topic);
    lemma_matching(kept.native, topic);
    if idxs.len() > 0 {
        lemma_append_items_ok(kept, obufs, spread(idxs, entry));
    } else if append_publish(datalog, connection, publish, props, now).outcome is Ok {
        let opened = kept.ensure_log(topic);
        let items = spread(seq![log_index(kept.native, topic)], entry);
        assert(items.drop_last() =~= Seq::<(usize, LogEntry)>::empty());
        assert(opened.append_items(items.drop_last()) == opened);
        lemma_find_log(kept.native, topic);
        assert(items.last() == (log_index(kept.native, topic), entry));
        assert(opened.append_items(items).native.len() == opened.native.len());
        lemma_with_filter(kept.native, topic, kept.config);
        assert forall|i: int| 0 <= i < kept.native.len() implies (#[trigger] opened.native[i])
            == kept.native[i] by {}
        lemma_extend_parked(kept.native, opened.native, obufs);
        lemma_append_items_ok(opened, obufs, items);
    }
}

impl RouterState {
    /// Whether the logs fit the address space.
    pub open spec fn fits(self) -> bool {
        self.datalog.native.len() <= usize::MAX
    }

    /// A step that leaves the logs in order leaves a router in order.
    pub proof fn lemma_with_datalog(
        self,
        datalog: DataLogState,
        notifications: Seq<(ConnectionId, DataRequest)>,
    )
        requires
            self.inv(),
            datalog.wf(),
            datalog.config == self.config,
            filters_extend(self.datalog.native, datalog.native),
            parked_ok(datalog.native, self.obufs),
            waiters_ok(datalog.native, self.obufs, notifications),
        ensures
            (RouterState { datalog, notifications, ..self }).inv(),
    {
        let after = RouterState { datalog, notifications, ..self };
        assert forall|id: ConnectionId| #[trigger]
            after.scheduler.trackers.has(id) implies requests_ok(
            after.datalog.native,
            after.scheduler.trackers.at(id).data_requests,
        ) by {
            lemma_extend_requests(
                self.datalog.native,
                datalog.native,
                self.scheduler.trackers.at(id).data_requests,
            );
        }
        assert forall|client_id: Seq<char>| #[trigger]
            after.graveyard.contains_key(client_id) implies requests_ok(
            after.datalog.native,
            after.graveyard[client_id].tracker.data_requests,
        ) by {
            assert(self.graveyard.contains_key(client_id));
            lemma_extend_requests(
                self.datalog.native,
                datalog.native,
                self.graveyard[client_id].tracker.data_requests,
            );
        }
    }

    pub proof fn lemma_published(
        self,
        id: ConnectionId,
        publish: Publish,
        props: Option<PublishProperties>,
        now: Instant,
    )
        requires
            self.inv(),
            self.published(id, publish, props, now).fits(),
        ensures
            self.published(id, publish, props, now).inv(),
            self.publish_outcome(id, publish, props, now).outcome is Err ==> self.published(
                id,
                publish,
                props,
                now,
            ).notifications == self.notifications,
    {
        let connection = self.connections.at(id);
        lemma_append_publish(self.datalog, self.obufs, connection, publish, props, now);
        let appended = append_publish(self.datalog, connection, publish, props, now);
        lemma_extend_waiters(
            self.datalog.native,
            appended.datalog.native,
            self.obufs,
            self.notifications,
        );
        self.lemma_with_datalog(appended.datalog, self.notifications + appended.woken);
        assert(self.notifications + Seq::<(ConnectionId, DataRequest)>::empty()
            =~= self.notifications);
    }

    /// A connection that changes nothing the router relies on leaves it in
    /// order.
    pub proof fn lemma_with_connection(self, id: ConnectionId, connection: ConnectionState)
        requires
            self.inv(),
            self.live(id),
            connection.subscriptions == self.connections.at(id).subscriptions,
            connection.events.len() <= MAX_EVENTS,
        ensures
            (RouterState { connections: self.connections.set(id, connection), ..self }).inv(),
    {
        assert(self.connections.has(id));
        lemma_set_shape(self.connections, id, connection);
        self.connections.lemma_set(id, connection);
        let after = self.connections.set(id, connection);
        assert forall|filter: Seq<char>, other: ConnectionId| #[trigger]
            subscribes(after, filter, other) == subscribes(self.connections, filter, other) by {}
    }

    pub proof fn lemma_last_will(self, id: ConnectionId, now: Instant)
        requires
            self.inv(),
            self.live(id),
            self.last_will(id, now).fits(),
        ensures
            self.last_will(id, now).inv(),
            self.last_will(id, now).live(id),
            self.last_will(id, now).obufs == self.obufs,
            self.notifications.len() == 0 ==> self.last_will(id, now).notifications.len() == 0,
    {
        let connection = self.connections.at(id);
        assert(self.connections.has(id));
        match connection.last_will {
            None => {},
            Some(will) => {
                let given = ConnectionState { last_will: None, ..connection };
                self.lemma_with_connection(id, given);
                let taken = RouterState {
                    connections: self.connections.set(id, given),
                    ..self
                };
                taken.lemma_published(id, will_publish(will), None, now);
                taken.published(id, will_publish(will), None, now).lemma_settled();
            },
        }
    }
}

/// Those who are left waiting waited before, and are others.
pub proof fn lemma_waiters_without(waiters: Seq<(ConnectionId, DataRequest)>, id: ConnectionId)
    ensures
        forall|i: int|
            0 <= i < waiters_without(waiters, id).len() ==> (#[trigger] waiters_without(
                waiters,
                id,
            )[i]).0 != id && waiters.contains(waiters_without(waiters, id)[i]),
    decreases waiters.len(),
{
    if waiters.len() > 0 {
        let shorter = waiters.drop_last();
        lemma_waiters_without(shorter, id);
        let left = waiters_without(waiters, id);
        assert forall|i: int| 0 <= i < left.len() implies (#[trigger] left[i]).0 != id
            && waiters.contains(left[i]) by {
            if i < waiters_without(shorter, id).len() {
                assert(shorter.contains(waiters_without(shorter, id)[i]));
                let k = choose|k: int| 0 <= k < shorter.len() && shorter[k] == left[i];
                assert(waiters[k] == left[i]);
            } else {
                assert(waiters[waiters.len() - 1] == left[i]);
            }
        }
    }
}

/// What a connection waits for can be served where all can.
proof fn lemma_requests_of(
    logs: Seq<FilterLogState<LogEntry>>,
    obufs: Slots<OutgoingState>,
    waiters: Seq<(ConnectionId, DataRequest)>,
    id: ConnectionId,
)
    requires
        waiters_ok(logs, obufs, waiters),
    ensures
        requests_ok(logs, requests_of(waiters, id)),
    decreases waiters.len(),
{
    if waiters.len() > 0 {
        let shorter = waiters.drop_last();
        assert forall|i: int| 0 <= i < shorter.len() implies obufs.has((#[trigger] shorter[i]).0)
            && request_ok(logs, shorter[i].1) by {
            assert(shorter[i] == waiters[i]);
        }
        lemma_requests_of(logs, obufs, shorter, id);
        assert(request_ok(logs, waiters[waiters.len() - 1].1));
    }
}

pub proof fn lemma_parked_requests(
    logs: Seq<FilterLogState<LogEntry>>,
    obufs: Slots<OutgoingState>,
    some: Seq<FilterLogState<LogEntry>>,
    id: ConnectionId,
)
    requires
        forall|i: int| 0 <= i < some.len() ==> waiters_ok(logs, obufs, (#[trigger] some[i]).waiters),
    ensures
        requests_ok(logs, parked(some, id)),
    decreases some.len(),
{
    if some.len() > 0 {
        let shorter = some.drop_last();
        assert forall|i: int| 0 <= i < shorter.len() implies waiters_ok(
            logs,
            obufs,
            (#[trigger] shorter[i]).waiters,
        ) by {
            assert(shorter[i] == some[i]);
        }
        lemma_parked_requests(logs, obufs, shorter, id);
        assert(some[some.len() - 1] == some.last());
        lemma_requests_of(logs, obufs, some.last().waiters, id);
    }
}

pub proof fn lemma_record_event(events: Seq<Seq<char>>, event: Seq<char>)
    requires
        events.len() <= MAX_EVENTS,
    ensures
        record_event(events, event).len() <= MAX_EVENTS,
        record_event(events, event).len() > 0,
        record_event(events, event).last() == event,
{
}

impl RouterState {
    /// What is kept of a connection can be taken up again.
    proof fn lemma_session(self, id: ConnectionId, time: Seq<char>)
        requires
            self.inv(),
            self.live(id),
        ensures
            self.session(id, time).tracker.id == self.obufs.at(id).client_id,
            self.session(id, time).tracker.status == Status::Paused(PauseReason::Busy),
            self.session(id, time).metrics.len() <= MAX_EVENTS,
            requests_ok(self.datalog.native, self.session(id, time).tracker.data_requests),
    {
        let connection = self.connections.at(id);
        assert(self.connections.has(id));
        assert(self.scheduler.trackers.has(id));
        lemma_record_event(connection.events, disconnection_event(time));
        lemma_parked_requests(self.datalog.native, self.obufs, self.datalog.native, id);
        let tracker = self.scheduler.trackers.at(id);
        let requests = tracker.data_requests + parked(self.datalog.native, id);
        assert(requests_ok(self.datalog.native, requests));
        let again = all_rewound(requests, self.obufs.at(id).inflight);
        assert forall|i: int| 0 <= i < again.len() implies request_ok(
            self.datalog.native,
            #[trigger] again[i],
        ) by {
            assert(request_ok(self.datalog.native, requests[i]));
        }
    }

    proof fn lemma_departed_tables(self, id: ConnectionId, time: Seq<char>)
        requires
            self.inv(),
            self.live(id),
        ensures
            self.departed(id, time).tables_ok(),
            !self.departed(id, time).live(id),
            forall|other: ConnectionId| #[trigger]
                self.departed(id, time).live(other) <==> self.live(other) && other != id,
    {
        assert(self.connections.has(id));
        lemma_remove_shape(self.connections, self.ibufs, id);
        lemma_remove_shape(self.connections, self.obufs, id);
        lemma_remove_shape(self.obufs, self.connections, id);
        lemma_remove_shape(self.connections, self.ackslog, id);
        lemma_remove_shape(self.connections, self.scheduler.trackers, id);
        lemma_remove_wf(self.connections, id);
        self.lemma_count();
    }

    pub proof fn lemma_live_counted(self, id: ConnectionId)
        requires
            self.inv(),
            self.live(id),
        ensures
            self.router_meters.total_connections >= 1,
    {
        self.lemma_count();
        assert(self.connections.has(id));
    }

    /// All tables hand out the same key next.
    pub proof fn lemma_same_keys(self)
        requires
            self.inv(),
        ensures
            self.connections.count() < self.config.max_connections
                ==> self.connections.vacant.len() > 0 || self.connections.rows.len()
                < self.config.max_connections,
            self.ibufs.next_key() == self.connections.next_key(),
            self.obufs.next_key() == self.connections.next_key(),
            self.ackslog.next_key() == self.connections.next_key(),
            self.scheduler.trackers.next_key() == self.connections.next_key(),
    {
    }

    /// There is at least one connection where one is live.
    proof fn lemma_count(self)
        requires
            self.tables_ok(),
        ensures
            self.connections.count() >= 0,
            forall|id: ConnectionId| #[trigger]
                self.connections.has(id) ==> self.connections.count() >= 1,
    {
        let slots = self.connections;
        lemma_vacant_bound(slots.vacant, slots.rows.len() as int);
        assert forall|id: ConnectionId| #[trigger] slots.has(id) implies slots.count() >= 1 by {
            let more = slots.vacant.push(id);
            assert forall|i: int, j: int| 0 <= i < j < more.len() implies more[i] != more[j] by {
                if j == slots.vacant.len() {
                    assert(slots.rows[slots.vacant[i] as int] is None);
                }
            }
            lemma_vacant_bound(more, slots.rows.len() as int);
        }
    }

    proof fn lemma_departed_waiting(self, id: ConnectionId, time: Seq<char>)
        requires
            self.inv(),
            self.live(id),
            self.notifications.len() == 0,
        ensures
            self.departed(id, time).waiting_ok(),
            self.departed(id, time).datalog.wf(),
            filters_extend(self.datalog.native, self.departed(id, time).datalog.native),
    {
        self.lemma_departed_tables(id, time);
        let after = self.departed(id, time);
        let native = after.datalog.native;
        assert forall|i: int| 0 <= i < native.len() implies waiters_ok(
            native,
            after.obufs,
            (#[trigger] native[i]).waiters,
        ) && at_home(native[i]) by {
            let before = self.datalog.native[i].waiters;
            lemma_waiters_without(before, id);
            let left = native[i].waiters;
            assert(waiters_ok(self.datalog.native, self.obufs, before));
            assert(at_home(self.datalog.native[i]));
            assert forall|k: int| 0 <= k < left.len() implies after.obufs.has(
                (#[trigger] left[k]).0,
            ) && request_ok(native, left[k].1) && left[k].1.filter@ == native[i].filter by {
                assert(before.contains(left[k]));
                let j = choose|j: int| 0 <= j < before.len() && before[j] == left[k];
                assert(self.obufs.has(before[j].0));
                assert(after.live(left[k].0));
            }
        }
        assert forall|i: int| 0 <= i < native.len() implies (#[trigger] native[i]).log.wf() by {
            assert(self.datalog.native[i].log.wf());
        }
        assert forall|i: int, j: int| 0 <= i < j < native.len() implies (#[trigger] native[i]).filter
            != (#[trigger] native[j]).filter by {
            assert(self.datalog.native[i].filter != self.datalog.native[j].filter);
        }
    }

    /// There is room where a connection was.
    pub proof fn lemma_room_after(self, id: ConnectionId, time: Seq<char>)
        requires
            self.inv(),
            self.live(id),
        ensures
            self.departed(id, time).connections.count() < self.config.max_connections,
    {
        assert(self.connections.has(id));
        lemma_remove_wf(self.connections, id);
    }

    pub proof fn lemma_departed(self, id: ConnectionId, time: Seq<char>)
        requires
            self.inv(),
            self.live(id),
            self.notifications.len() == 0,
        ensures
            self.departed(id, time).inv(),
            forall|other: ConnectionId| #[trigger]
                self.departed(id, time).live(other) <==> self.live(other) && other != id,
            self.departed(id, time).notifications.len() == 0,
    {
        self.lemma_departed_tables(id, time);
        self.lemma_departed_waiting(id, time);
        self.lemma_session(id, time);
        let after = self.departed(id, time);
        let client_id = self.obufs.at(id).client_id;
        assert(self.connections.has(id));
        lemma_remove_shape(self.connections, self.obufs, id);
        lemma_remove_shape(self.connections, self.scheduler.trackers, id);
        assert forall|c: Seq<char>| #[trigger] after.connection_map.contains_key(c) implies {
            &&& after.obufs.has(after.connection_map[c])
            &&& after.obufs.at(after.connection_map[c]).client_id == c
        } by {
            assert(self.connection_map.contains_key(c));
            let other = self.connection_map[c];
            assert(self.obufs.has(other));
            assert(other != id);
            assert(after.live(other));
        }
        assert forall|other: ConnectionId| #[trigger] after.obufs.has(other) implies {
            &&& after.connection_map.contains_key(after.obufs.at(other).client_id)
            &&& after.connection_map[after.obufs.at(other).client_id] == other
            &&& after.scheduler.trackers.at(other).id == after.obufs.at(other).client_id
        } by {
            assert(after.live(other));
            assert(self.obufs.has(other));
            assert(self.scheduler.trackers.has(other));
            assert(self.connection_map[client_id] == id);
        }
        assert(after.subscriptions_ok()) by {
            assert forall|filter: Seq<char>, other: ConnectionId| #[trigger]
                lists(after.subscription_map, filter, other) <==> #[trigger] subscribes(
                    after.connections,
                    filter,
                    other,
                ) by {
                assert(lists(self.subscription_map, filter, other) <==> subscribes(
                    self.connections,
                    filter,
                    other,
                ));
                assert(after.live(other) <==> self.live(other) && other != id);
                assert(after.connections.has(other) == after.obufs.has(other));
            }
        }
        assert forall|other: ConnectionId| #[trigger]
            after.scheduler.trackers.has(other) implies requests_ok(
            after.datalog.native,
            after.scheduler.trackers.at(other).data_requests,
        ) by {
            assert(self.scheduler.trackers.has(other));
            lemma_extend_requests(
                self.datalog.native,
                after.datalog.native,
                self.scheduler.trackers.at(other).data_requests,
            );
        }
        assert forall|c: Seq<char>| #[trigger] after.graveyard.contains_key(c) implies {
            &&& after.graveyard[c].tracker.id == c
            &&& after.graveyard[c].tracker.status == Status::Paused(PauseReason::Busy)
            &&& after.graveyard[c].metrics.len() <= MAX_EVENTS
            &&& requests_ok(after.datalog.native, after.graveyard[c].tracker.data_requests)
        } by {
            if c != client_id {
                assert(self.graveyard.contains_key(c));
            }
            lemma_extend_requests(
                self.datalog.native,
                after.datalog.native,
                if c == client_id {
                    self.session(id, time).tracker.data_requests
                } else {
                    self.graveyard[c].tracker.data_requests
                },
            );
        }
        assert forall|other: ConnectionId| #[trigger]
            after.connections.has(other) implies after.connections.at(other).events.len()
            <= MAX_EVENTS by {
            assert(self.connections.has(other));
        }
        assert forall|other: ConnectionId| #[trigger]
            after.scheduler.trackers.has(other) && after.scheduler.trackers.at(
                other,
            ).status is Ready implies after.scheduler.readyqueue.contains(other) by {
            assert(self.scheduler.trackers.has(other));
        }
    }
}

/// Different numbers below a bound are no more than the bound.
proof fn lemma_vacant_bound(vacant: Seq<usize>, bound: int)
    requires
        0 <= bound,
        forall|i: int| 0 <= i < vacant.len() ==> (#[trigger] vacant[i]) < bound,
        forall|i: int, j: int| 0 <= i < j < vacant.len() ==> vacant[i] != vacant[j],
    ensures
        vacant.len() <= bound,
    decreases bound,
{
    let last = (bound - 1) as usize;
    if vacant.len() == 0 {
    } else if bound == 0 {
        assert(vacant[0] < bound);
    } else if vacant.contains(last) {
        let k = choose|k: int| 0 <= k < vacant.len() && vacant[k] == last;
        let rest = vacant.remove(k);
        assert(vacant[k] < bound);
        assert forall|i: int| 0 <= i < rest.len() implies (#[trigger] rest[i]) < bound - 1 by {
            let j = if i < k {
                i
            } else {
                i + 1
            };
            assert(rest[i] == vacant[j]);
            assert(vacant[j] != vacant[k]);
        }
        assert forall|i: int, j: int| 0 <= i < j < rest.len() implies rest[i] != rest[j] by {
            let i2 = if i < k {
                i
            } else {
                i + 1
            };
            let j2 = if j < k {
                j
            } else {
                j + 1
            };
            assert(vacant[i2] != vacant[j2]);
        }
        lemma_vacant_bound(rest, bound - 1);
    } else {
        assert(vacant[0] < bound);
        assert forall|i: int| 0 <= i < vacant.len() implies (#[trigger] vacant[i]) < bound
            - 1 by {
            assert(vacant[i] < bound);
            if vacant[i] == last {
                assert(vacant.contains(last));
            }
        }
        lemma_vacant_bound(vacant, bound - 1);
    }
}

impl RouterState {
    pub proof fn lemma_disconnected(self, id: ConnectionId, execute_will: bool, moment: Moment)
        requires
            self.inv(),
            self.notifications.len() == 0,
            self.disconnected(id, execute_will, moment).fits(),
        ensures
            self.disconnected(id, execute_will, moment).inv(),
            self.disconnected(id, execute_will, moment).notifications.len() == 0,
            !self.disconnected(id, execute_will, moment).live(id),
            forall|other: ConnectionId| #[trigger]
                self.disconnected(id, execute_will, moment).live(other) <==> self.live(other)
                    && other != id,
    {
        if self.live(id) {
            self.lemma_leaving(id, execute_will, moment.now);
            let leaving = self.leaving(id, execute_will, moment.now);
            leaving.lemma_departed(id, moment.time@);
            let after = leaving.departed(id, moment.time@);
            assert forall|other: ConnectionId| #[trigger] after.live(other) <==> self.live(other)
                && other != id by {
                assert(leaving.obufs == self.obufs);
            }
            assert(after.live(id) <==> self.live(id) && id != id);
        }
    }

    /// A connection that is about to end is still there, with its client.
    pub proof fn lemma_leaving(self, id: ConnectionId, execute_will: bool, now: Instant)
        requires
            self.inv(),
            self.live(id),
            self.leaving(id, execute_will, now).fits(),
        ensures
            self.leaving(id, execute_will, now).inv(),
            self.leaving(id, execute_will, now).obufs == self.obufs,
            self.leaving(id, execute_will, now).connection_map == self.connection_map,
            self.leaving(id, execute_will, now).graveyard == self.graveyard,
            self.leaving(id, execute_will, now).config == self.config,
            self.notifications.len() == 0 ==> self.leaving(
                id,
                execute_will,
                now,
            ).notifications.len() == 0,
    {
        let alert = AlertView::Disconnect(self.obufs.at(id).client_id);
        self.lemma_with_alert(alert);
        if execute_will {
            self.with_alert(alert).lemma_last_will(id, now);
        }
    }

    pub proof fn lemma_admitted(
        self,
        connection: ConnectionState,
        incoming: IncomingState,
        outgoing: OutgoingState,
        moment: Moment,
    )
        requires
            self.inv(),
            !self.connection_map.contains_key(outgoing.client_id),
            self.connections.count() < self.config.max_connections,
        ensures
            self.admitted(connection, incoming, outgoing, moment).inv(),
            self.admitted(connection, incoming, outgoing, moment).notifications
                == self.notifications,
    {
        let client_id = outgoing.client_id;
        let found = retrieved(self.graveyard, client_id, moment.now);
        let saved = match found {
            Some(saved) => saved,
            None => SavedStateView::new(client_id),
        };
        let id = self.connections.next_key();
        let tracker = if connection.clean {
            TrackerState::new(client_id)
        } else {
            saved.tracker
        };
        let after = self.admitted(connection, incoming, outgoing, moment);
        if found is Some {
            assert(self.graveyard.contains_key(client_id));
        }
        assert(tracker.id == client_id);
        assert(tracker.status == Status::Paused(PauseReason::Busy));
        assert(requests_ok(self.datalog.native, tracker.data_requests));
        lemma_record_event(saved.metrics, connection_event(moment.time@, connection.clean));
        let full = ConnectionState {
            subscriptions: if connection.clean {
                connection.subscriptions
            } else {
                saved.subscriptions
            },
            events: record_event(
                saved.metrics,
                connection_event(moment.time@, connection.clean),
            ),
            ..connection
        };
        let ack = ConnAck {
            session_present: !connection.clean && found is Some,
            code: ConnectReturnCode::Success,
        };
        let acks = AckLogState::empty().commit(AckView::ConnAck(id, ack));
        lemma_insert_wf(self.connections, full);
        lemma_insert_shape(self.connections, self.ibufs, full, incoming);
        lemma_insert_shape(self.connections, self.obufs, full, outgoing);
        lemma_insert_shape(self.connections, self.ackslog, full, acks);
        lemma_insert_shape(self.connections, self.scheduler.trackers, full, tracker);
        let added = self.scheduler.add(tracker);
        assert(trackers_ok(self.datalog.native, added)) by {
            assert forall|other: ConnectionId| #[trigger] added.trackers.has(other) implies requests_ok(
                self.datalog.native,
                added.trackers.at(other).data_requests,
            ) by {
                if other != id {
                    assert(self.scheduler.trackers.has(other));
                }
            }
        }
        assert(ready_queued(added)) by {
            assert forall|other: ConnectionId| #[trigger]
                added.trackers.has(other) && added.trackers.at(
                    other,
                ).status is Ready implies added.readyqueue.contains(other) by {
                if other != id {
                    assert(self.scheduler.trackers.has(other));
                }
            }
        }
        lemma_reschedule(self.datalog.native, added, id, ScheduleReason::Init);
        self.lemma_admitted_clients(connection, incoming, outgoing, moment);
        self.lemma_with_alert(AlertView::Connect(client_id));
        assert(after.alerts_ok()) by {
            assert(self.with_alert(AlertView::Connect(client_id)).alerts_ok());
        }
        assert forall|other: ConnectionId| self.obufs.has(other) implies #[trigger] after.obufs.has(
            other,
        ) by {}
        assert forall|i: int| 0 <= i < after.datalog.native.len() implies waiters_ok(
            after.datalog.native,
            after.obufs,
            (#[trigger] after.datalog.native[i]).waiters,
        ) && at_home(after.datalog.native[i]) by {
            assert(waiters_ok(
                self.datalog.native,
                self.obufs,
                self.datalog.native[i].waiters,
            ));
        }
        assert forall|c: Seq<char>| #[trigger] after.graveyard.contains_key(
            c,
        ) implies self.graveyard.contains_key(c) && after.graveyard[c] == self.graveyard[c] by {}
        assert(after.subscriptions_ok()) by {
            assert forall|filter: Seq<char>, other: ConnectionId| #[trigger]
                lists(after.subscription_map, filter, other) <==> #[trigger] subscribes(
                    after.connections,
                    filter,
                    other,
                ) by {
                assert(lists(self.subscription_map, filter, other) <==> subscribes(
                    self.connections,
                    filter,
                    other,
                ));
                assert(after.connections.has(other) <==> self.connections.has(other) || other
                    == id);
            }
        }
        assert forall|other: ConnectionId| #[trigger]
            after.connections.has(other) implies after.connections.at(other).events.len()
            <= MAX_EVENTS by {
            if other != id {
                assert(self.connections.has(other));
            }
        }
        assert(after.tables_ok());
    }

    proof fn lemma_admitted_clients(
        self,
        connection: ConnectionState,
        incoming: IncomingState,
        outgoing: OutgoingState,
        moment: Moment,
    )
        requires
            self.inv(),
            !self.connection_map.contains_key(outgoing.client_id),
            self.connections.count() < self.config.max_connections,
        ensures
            self.admitted(connection, incoming, outgoing, moment).clients_ok(),
    {
        let client_id = outgoing.client_id;
        let found = retrieved(self.graveyard, client_id, moment.now);
        let saved = match found {
            Some(saved) => saved,
            None => SavedStateView::new(client_id),
        };
        if found is Some {
            assert(self.graveyard.contains_key(client_id));
        }
        let id = self.connections.next_key();
        let tracker = if connection.clean {
            TrackerState::new(client_id)
        } else {
            saved.tracker
        };
        let after = self.admitted(connection, incoming, outgoing, moment);
        let row = after.connections.at(id);
        lemma_insert_shape(self.connections, self.obufs, row, outgoing);
        lemma_insert_shape(self.connections, self.scheduler.trackers, row, tracker);
        let added = self.scheduler.add(tracker);
        assert forall|other: ConnectionId| #[trigger]
            added.trackers.has(other) implies after.scheduler.trackers.at(other).id
            == added.trackers.at(other).id by {
            if added.reschedule(id, ScheduleReason::Init) != added {
                lemma_set_shape(
                    added.trackers,
                    id,
                    TrackerState { status: Status::Ready, ..added.trackers.at(id) },
                );
            }
        }
        assert forall|c: Seq<char>| #[trigger] after.connection_map.contains_key(c) implies {
            &&& after.obufs.has(after.connection_map[c])
            &&& after.obufs.at(after.connection_map[c]).client_id == c
        } by {
            if c != client_id {
                assert(self.connection_map.contains_key(c));
                assert(self.obufs.has(self.connection_map[c]));
                assert(self.connections.has(self.connection_map[c]));
            }
        }
        assert forall|other: ConnectionId| #[trigger] after.obufs.has(other) implies {
            &&& after.connection_map.contains_key(after.obufs.at(other).client_id)
            &&& after.connection_map[after.obufs.at(other).client_id] == other
            &&& after.scheduler.trackers.at(other).id == after.obufs.at(other).client_id
        } by {
            assert(added.trackers.has(other));
            if other != id {
                assert(self.obufs.has(other));
                assert(self.scheduler.trackers.has(other));
            }
        }
    }

    pub proof fn lemma_without_duplicate(self, client_id: Seq<char>, moment: Moment)
        requires
            self.inv(),
            self.notifications.len() == 0,
            self.without_duplicate(client_id, moment).fits(),
        ensures
            self.without_duplicate(client_id, moment).inv(),
            self.without_duplicate(client_id, moment).notifications.len() == 0,
            !self.without_duplicate(client_id, moment).connection_map.contains_key(client_id),
    {
        if self.connection_map.contains_key(client_id) {
            let id = self.connection_map[client_id];
            self.lemma_disconnected(id, true, moment);
            assert(self.live(id));
            self.lemma_leaving(id, true, moment.now);
        }
    }
}

impl RouterState {
    pub proof fn lemma_with_incoming(self, id: ConnectionId, incoming: IncomingState)
        requires
            self.inv(),
            self.live(id),
        ensures
            (RouterState { ibufs: self.ibufs.set(id, incoming), ..self }).inv(),
    {
        assert(self.connections.has(id));
        assert(self.ibufs.has(id));
        lemma_set_shape(self.ibufs, id, incoming);
    }

    pub proof fn lemma_with_acks(self, id: ConnectionId, acks: AckLogState)
        requires
            self.inv(),
            self.live(id),
        ensures
            (RouterState { ackslog: self.ackslog.set(id, acks), ..self }).inv(),
    {
        assert(self.connections.has(id));
        assert(self.ackslog.has(id));
        lemma_set_shape(self.ackslog, id, acks);
    }

    pub proof fn lemma_with_outgoing(self, id: ConnectionId, outgoing: OutgoingState)
        requires
            self.inv(),
            self.live(id),
            outgoing.client_id == self.obufs.at(id).client_id,
        ensures
            (RouterState { obufs: self.obufs.set(id, outgoing), ..self }).inv(),
            forall|other: ConnectionId| #[trigger]
                self.obufs.set(id, outgoing).has(other) == self.live(other),
    {
        let after = RouterState { obufs: self.obufs.set(id, outgoing), ..self };
        lemma_set_shape(self.obufs, id, outgoing);
        assert forall|c: Seq<char>| #[trigger] after.connection_map.contains_key(c) implies {
            &&& after.obufs.has(after.connection_map[c])
            &&& after.obufs.at(after.connection_map[c]).client_id == c
        } by {
            assert(self.obufs.has(self.connection_map[c]));
        }
        assert forall|i: int| 0 <= i < after.datalog.native.len() implies waiters_ok(
            after.datalog.native,
            after.obufs,
            (#[trigger] after.datalog.native[i]).waiters,
        ) by {
            assert(waiters_ok(
                self.datalog.native,
                self.obufs,
                self.datalog.native[i].waiters,
            ));
        }
    }

    pub proof fn lemma_prepared(
        self,
        id: ConnectionId,
        cursor: Offset,
        filter_idx: usize,
        filter: String,
        qos: u8,
    )
        requires
            self.inv(),
            self.live(id),
            qos <= 1,
            filter_idx < self.datalog.native.len(),
            self.datalog.native[filter_idx as int].filter == filter@,
        ensures
            self.prepared(id, cursor, filter_idx, filter, qos).inv(),
    {
        let after = self.prepared(id, cursor, filter_idx, filter, qos);
        assert(self.connections.has(id));
        let connection = self.connections.at(id);
        let request = DataRequest {
            filter,
            filter_idx,
            qos,
            cursor,
            read_count: 0,
            max_count: 100,
        };
        let native = self.datalog.native;
        let more = ConnectionState {
            subscriptions: connection.subscriptions.insert(filter@),
            ..connection
        };
        lemma_set_shape(self.connections, id, more);
        self.connections.lemma_set(id, more);
        let listed = RouterState {
            connections: self.connections.set(id, more),
            subscription_map: after.subscription_map,
            ..self
        };
        assert(listed.subscriptions_ok()) by {
            assert forall|f: Seq<char>, other: ConnectionId| #[trigger]
                lists(listed.subscription_map, f, other) <==> #[trigger] subscribes(
                    listed.connections,
                    f,
                    other,
                ) by {
                assert(lists(self.subscription_map, f, other) <==> subscribes(
                    self.connections,
                    f,
                    other,
                ));
            }
        }
        assert(listed.inv());
        let scheduled = RouterState { scheduler: after.scheduler, ..listed };
        if !connection.subscriptions.contains(filter@) {
            lemma_track(native, self.scheduler, id, request);
            let asked = self.scheduler.track(id, request);
            lemma_reschedule(native, asked, id, ScheduleReason::NewFilter);
            listed.lemma_with_scheduler(after.scheduler);
        }
        scheduled.lemma_with_incoming(id, after.ibufs.at(id));
        lemma_set_shape(self.ibufs, id, after.ibufs.at(id));
        assert(after =~= RouterState {
            ibufs: scheduled.ibufs.set(id, after.ibufs.at(id)),
            ..scheduled
        });
    }

    /// The log of a filter can be opened.
    pub proof fn lemma_ensured(self, filter: Seq<char>)
        requires
            self.inv(),
            self.datalog.ensure_log(filter).native.len() <= usize::MAX,
        ensures
            (RouterState { datalog: self.datalog.ensure_log(filter), ..self }).inv(),
            log_index(self.datalog.native, filter) < self.datalog.ensure_log(filter).native.len(),
            self.datalog.ensure_log(filter).native[log_index(
                self.datalog.native,
                filter,
            ) as int].filter == filter,
            find_log(self.datalog.ensure_log(filter).native, filter) == Some(
                log_index(self.datalog.native, filter),
            ),
    {
        let before = self.datalog.native;
        lemma_with_filter(before, filter, self.config);
        let opened = self.datalog.ensure_log(filter);
        assert forall|i: int| 0 <= i < before.len() implies (#[trigger] opened.native[i])
            == before[i] by {}
        lemma_extend_parked(before, opened.native, self.obufs);
        lemma_extend_waiters(before, opened.native, self.obufs, self.notifications);
        self.lemma_with_datalog(opened, self.notifications);
    }

    /// What is replayed goes to logs that are there.
    pub proof fn lemma_replay_items(self, filter: Seq<char>)
        requires
            self.datalog.native.len() <= usize::MAX,
        ensures
            forall|k: int|
                0 <= k < self.datalog.replay_items(filter).len()
                    ==> (#[trigger] self.datalog.replay_items(filter)[k]).0
                    < self.datalog.native.len(),
    {
        lemma_find_log(self.datalog.native, filter);
        if let Some(idx) = find_log(self.datalog.native, filter) {
            lemma_replayed_idx(self.datalog.retained, filter, idx);
        }
    }

    pub proof fn lemma_replayed(self, filter: Seq<char>)
        requires
            self.inv(),
        ensures
            ({
                let items = self.datalog.replay_items(filter);
                RouterState {
                    datalog: self.datalog.append_items(items),
                    notifications: self.notifications + self.datalog.woken(items),
                    ..self
                }
            }).inv(),
            self.datalog.append_items(self.datalog.replay_items(filter)).native.len()
                == self.datalog.native.len(),
    {
        let items = self.datalog.replay_items(filter);
        self.lemma_replay_items(filter);
        lemma_append_items_ok(self.datalog, self.obufs, items);
        let after = self.datalog.append_items(items);
        lemma_extend_waiters(self.datalog.native, after.native, self.obufs, self.notifications);
        self.lemma_with_datalog(after, self.notifications + self.datalog.woken(items));
    }

    pub proof fn lemma_subscribed(self, id: ConnectionId, filter: Filter)
        requires
            self.inv(),
            self.live(id),
            !(filter.qos is ExactlyOnce),
            self.datalog.ensure_log(filter.path@).native.len() <= usize::MAX,
        ensures
            self.subscribed(id, filter).inv(),
            self.subscribed(id, filter).obufs == self.obufs,
    {
        self.lemma_ensured(filter.path@);
        let opened = RouterState { datalog: self.datalog.ensure_log(filter.path@), ..self };
        let idx = log_index(self.datalog.native, filter.path@);
        let cursor = self.datalog.next_offset(filter.path@);
        opened.lemma_prepared(id, cursor, idx, filter.path, filter.qos.spec_level());
        opened.prepared(id, cursor, idx, filter.path, filter.qos.spec_level()).lemma_replayed(
            filter.path@,
        );
    }

    pub proof fn lemma_unsubscribed(self, id: ConnectionId, filter: Seq<char>, pkid: u16)
        requires
            self.inv(),
            self.live(id),
        ensures
            self.unsubscribed(id, filter, pkid).inv(),
            self.unsubscribed(id, filter, pkid).obufs == self.obufs,
    {
        if lists(self.subscription_map, filter, id) {
            assert(subscribes(self.connections, filter, id));
            let connection = self.connections.at(id);
            let after = self.unsubscribed(id, filter, pkid);
            self.lemma_unasked(id, filter);
            let silent = self.unasked(id, filter);
            let fewer = ConnectionState {
                subscriptions: connection.subscriptions.remove(filter),
                ..connection
            };
            lemma_set_shape(self.connections, id, fewer);
            self.connections.lemma_set(id, fewer);
            let left = RouterState {
                connections: self.connections.set(id, fewer),
                subscription_map: after.subscription_map,
                ..silent
            };
            assert(left.subscriptions_ok()) by {
                assert forall|f: Seq<char>, other: ConnectionId| #[trigger]
                    lists(left.subscription_map, f, other) <==> #[trigger] subscribes(
                        left.connections,
                        f,
                        other,
                    ) by {
                    assert(lists(self.subscription_map, f, other) <==> subscribes(
                        self.connections,
                        f,
                        other,
                    ));
                }
            }
            assert(left.inv());
            left.lemma_with_incoming(id, after.ibufs.at(id));
            lemma_set_shape(self.ibufs, id, after.ibufs.at(id));
            let metered = RouterState {
                ibufs: left.ibufs.set(id, after.ibufs.at(id)),
                ..left
            };
            metered.lemma_with_ack(id, AckView::UnsubAck(pkid, Seq::empty()));
            assert(after =~= metered.with_ack(id, AckView::UnsubAck(pkid, Seq::empty())));
        }
    }

    /// A connection can stop asking for a filter.
    proof fn lemma_unasked(self, id: ConnectionId, filter: Seq<char>)
        requires
            self.inv(),
            self.live(id),
        ensures
            self.unasked(id, filter).inv(),
    {
        let scheduler = self.scheduler.untrack(id, filter);
        lemma_untrack(self.datalog.native, self.scheduler, id, filter);
        self.lemma_with_scheduler(scheduler);
        (RouterState { scheduler, ..self }).lemma_remove_waiter(id, filter);
    }

    proof fn lemma_remove_waiter(self, id: ConnectionId, filter: Seq<char>)
        requires
            self.inv(),
        ensures
            (RouterState { datalog: self.datalog.remove_waiter(id, filter), ..self }).inv(),
    {
        let before = self.datalog.native;
        let after = self.datalog.remove_waiter(id, filter).native;
        lemma_find_log(before, filter);
        if let Some(idx) = find_log(before, filter) {
            let waiters = before[idx as int].waiters;
            lemma_waiters_without(waiters, id);
            let left = waiters_without(waiters, id);
            assert(waiters_ok(before, self.obufs, waiters));
            assert(at_home(before[idx as int]));
            assert forall|k: int| 0 <= k < left.len() implies self.obufs.has(
                (#[trigger] left[k]).0,
            ) && request_ok(before, left[k].1) && left[k].1.filter@ == filter by {
                assert(waiters.contains(left[k]));
                let j = choose|j: int| 0 <= j < waiters.len() && waiters[j] == left[k];
                assert(self.obufs.has(waiters[j].0));
            }
            assert forall|i: int| 0 <= i < after.len() implies waiters_ok(
                after,
                self.obufs,
                (#[trigger] after[i]).waiters,
            ) && at_home(after[i]) by {
                if i == idx {
                    lemma_extend_waiters(before, after, self.obufs, left);
                } else {
                    lemma_extend_waiters(before, after, self.obufs, before[i].waiters);
                    assert(at_home(before[i]));
                }
            }
            lemma_extend_waiters(before, after, self.obufs, self.notifications);
            self.lemma_with_datalog(
                self.datalog.remove_waiter(id, filter),
                self.notifications,
            );
        }
    }

    pub proof fn lemma_park(self, id: ConnectionId, request: DataRequest)
        requires
            self.inv(),
            self.live(id),
            request_ok(self.datalog.native, request),
        ensures
            (RouterState { datalog: self.datalog.park(id, request), ..self }).inv(),
            filters_extend(self.datalog.native, self.datalog.park(id, request).native),
    {
        let before = self.datalog.native;
        let after = self.datalog.park(id, request).native;
        assert forall|i: int| 0 <= i < after.len() implies waiters_ok(
            after,
            self.obufs,
            (#[trigger] after[i]).waiters,
        ) && at_home(after[i]) by {
            lemma_extend_waiters(before, after, self.obufs, before[i].waiters);
            assert(at_home(before[i]));
        }
        lemma_extend_waiters(before, after, self.obufs, self.notifications);
        self.lemma_with_datalog(self.datalog.park(id, request), self.notifications);
    }
}

proof fn lemma_replayed_idx(retained: Seq<RetainedView>, filter: Seq<char>, idx: usize)
    ensures
        forall|k: int|
            0 <= k < replayed(retained, filter, idx).len() ==> (#[trigger] replayed(
                retained,
                filter,
                idx,
            )[k]).0 == idx,
    decreases retained.len(),
{
    if retained.len() > 0 {
        lemma_replayed_idx(retained.drop_last(), filter, idx);
        let before = replayed(retained.drop_last(), filter, idx);
        let all = replayed(retained, filter, idx);
        assert forall|k: int| 0 <= k < all.len() implies (#[trigger] all[k]).0 == idx by {
            if k < before.len() {
                assert(all[k] == before[k]);
            }
        }
    }
}

impl Turn {
    /// The router is in order in the middle of a turn, the connection is live,
    /// and who has to be told will be.
    pub open spec fn ok(self, id: ConnectionId) -> bool {
        &&& self.state.inv()
        &&& self.state.live(id)
        &&& self.state.notifications.len() > 0 ==> self.new_data
    }

    /// Packets behind one that stops a turn change nothing.
    pub proof fn lemma_stopped(
        self,
        id: ConnectionId,
        packets: Seq<Packet>,
        now: Instant,
        n: int,
    )
        requires
            0 <= n <= packets.len(),
            self.packets(id, packets.take(n), now).stopped,
        ensures
            self.packets(id, packets, now) == self.packets(id, packets.take(n), now),
        decreases packets.len(),
    {
        if n < packets.len() {
            assert(packets.drop_last().take(n) =~= packets.take(n));
            self.lemma_stopped(id, packets.drop_last(), now, n);
        } else {
            assert(packets.take(n) =~= packets);
        }
    }
}

impl Subscribing {
    /// Filters behind one that is refused are not looked at.
    pub proof fn lemma_refused(self, id: ConnectionId, filters: Seq<Filter>, n: int)
        requires
            0 <= n <= filters.len(),
            self.filters(id, filters.take(n)).refused,
        ensures
            self.filters(id, filters) == self.filters(id, filters.take(n)),
        decreases filters.len(),
    {
        if n < filters.len() {
            assert(filters.drop_last().take(n) =~= filters.take(n));
            self.lemma_refused(id, filters.drop_last(), n);
        } else {
            assert(filters.take(n) =~= filters);
        }
    }
}

impl RouterState {
    /// Serving a request leaves a router in order.
    pub proof fn lemma_serve(self, id: ConnectionId, request: DataRequest, now: Instant)
        requires
            self.inv(),
            self.live(id),
            request_ok(self.datalog.native, request),
        ensures
            ({
                let out = serve(request, self.datalog, self.obufs.at(id), self.alertlog, now);
                let next = RouterState {
                    obufs: self.obufs.set(id, out.outgoing),
                    alertlog: out.alertlog,
                    ..self
                };
                &&& next.inv()
                &&& next.live(id)
                &&& request_ok(self.datalog.native, out.request)
            }),
    {
        let outgoing = self.obufs.at(id);
        let out = serve(request, self.datalog, outgoing, self.alertlog, now);
        let log = self.datalog.native[request.filter_idx as int].log;
        let len = span(log, request.cursor, read_len(request, self.datalog, outgoing), now);
        let position = log.read_position(request.cursor, len);
        let read = deliverable(log.read(request.cursor, len), now);
        let start = position_start(position);
        let jump = AlertView::CursorJump(
            outgoing.client_id,
            jump_text(request.cursor, start, request.filter@),
        );
        outgoing.lemma_push_forwards(
            forwards(read, request.qos),
            request.qos,
            request.filter_idx,
        );
        self.lemma_with_alert(jump);
        let alerted = if out.alertlog == self.alertlog {
            self
        } else {
            self.with_alert(jump)
        };
        assert(alerted.inv());
        assert(alerted.alertlog == out.alertlog);
        assert(out.outgoing.client_id == outgoing.client_id);
        alerted.lemma_with_outgoing(id, out.outgoing);
        lemma_set_shape(self.obufs, id, out.outgoing);
    }

    pub proof fn lemma_acked(self, id: ConnectionId)
        requires
            self.inv(),
            self.live(id),
        ensures
            self.acked(id).inv(),
            self.acked(id).live(id),
    {
        let acks = self.ackslog.at(id);
        let sent = AckLogState { committed: Seq::empty(), ..acks };
        self.lemma_with_acks(id, sent);
        let emptied = RouterState { ackslog: self.ackslog.set(id, sent), ..self };
        emptied.lemma_with_outgoing(id, with_acks(self.obufs.at(id), acks.committed));
        lemma_set_shape(self.obufs, id, with_acks(self.obufs.at(id), acks.committed));
    }
}

/// The log of a filter can be opened without closing others.
pub proof fn lemma_alert_filter(alertlog: AlertLogState, filter: Seq<char>)
    requires
        alertlog.wf(),
        alertlog.ensure_log(filter).native.len() <= usize::MAX,
    ensures
        alertlog.ensure_log(filter).wf(),
        alertlog.ensure_log(filter).config == alertlog.config,
        alertlog.ensure_log(filter).has(filter),
        forall|other: Seq<char>| alertlog.has(other) ==> #[trigger] alertlog.ensure_log(
            filter,
        ).has(other),
{
    lemma_with_filter(alertlog.native, filter, alertlog.config);
    let after = alertlog.ensure_log(filter);
    assert forall|other: Seq<char>| alertlog.has(other) implies #[trigger] after.has(other) by {
        if find_log(alertlog.native, filter) is None {
            assert(after.native.drop_last() =~= alertlog.native);
        }
    }
}

impl RouterState {
    pub proof fn lemma_with_alertlog(self, alertlog: AlertLogState)
        requires
            self.inv(),
            alertlog.wf(),
            alertlog.config == self.config,
            forall|filter: Seq<char>| self.alertlog.has(filter) ==> #[trigger] alertlog.has(filter),
        ensures
            (RouterState { alertlog, ..self }).inv(),
    {
        let after = RouterState { alertlog, ..self };
        assert forall|id: usize, k: int|
            after.alerts.has(id) && 0 <= k < after.alerts.at(id).len() implies after.alertlog.has(
            (#[trigger] after.alerts.at(id)[k]).0,
        ) by {
            assert(self.alertlog.has(self.alerts.at(id)[k].0));
        }
    }

    pub proof fn lemma_alert_linked(self, link: Seq<(Seq<char>, Offset)>)
        requires
            self.inv(),
            self.alerts.vacant.len() > 0 || self.alerts.rows.len() < usize::MAX,
            forall|k: int| 0 <= k < link.len() ==> self.alertlog.has((#[trigger] link[k]).0),
        ensures
            (RouterState { alerts: self.alerts.insert(link), ..self }).inv(),
    {
        let after = RouterState { alerts: self.alerts.insert(link), ..self };
        lemma_insert_wf(self.alerts, link);
        lemma_insert_shape(self.alerts, self.alerts, link, link);
        assert forall|id: usize, k: int|
            after.alerts.has(id) && 0 <= k < after.alerts.at(id).len() implies after.alertlog.has(
            (#[trigger] after.alerts.at(id)[k]).0,
        ) by {
            if id != self.alerts.next_key() {
                assert(self.alerts.has(id));
                assert(self.alertlog.has(self.alerts.at(id)[k].0));
            } else {
                assert(self.alertlog.has(link[k].0));
            }
        }
    }

    pub proof fn lemma_with_link(self, id: usize, link: Seq<(Seq<char>, Offset)>)
        requires
            self.inv(),
            self.alerts.has(id),
            forall|k: int| 0 <= k < link.len() ==> self.alertlog.has((#[trigger] link[k]).0),
        ensures
            (RouterState { alerts: self.alerts.set(id, link), ..self }).inv(),
    {
        let after = RouterState { alerts: self.alerts.set(id, link), ..self };
        self.alerts.lemma_set(id, link);
        lemma_set_shape(self.alerts, id, link);
        assert forall|other: usize, k: int|
            after.alerts.has(other) && 0 <= k < after.alerts.at(
                other,
            ).len() implies after.alertlog.has((#[trigger] after.alerts.at(other)[k]).0) by {
            if other != id {
                assert(self.alerts.has(other));
                assert(self.alertlog.has(self.alerts.at(other)[k].0));
            } else {
                assert(self.alertlog.has(link[k].0));
            }
        }
    }

    /// Sessions that are dropped leave a router in order.
    pub proof fn lemma_with_graveyard(self, graveyard: Map<Seq<char>, SavedStateView>)
        requires
            self.inv(),
            forall|client_id: Seq<char>| #[trigger]
                graveyard.contains_key(client_id) ==> self.graveyard.contains_key(client_id)
                    && graveyard[client_id] == self.graveyard[client_id],
        ensures
            (RouterState { graveyard, ..self }).inv(),
    {
    }
}

} // verus!
