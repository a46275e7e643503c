//! What a router promises.
use super::alertlog::{AlertLogState, AlertView};
use super::commit::{after_retention, append_publish, publish_expiry};
use super::datalog::{
    deliverable, lemma_span, parked, reach, replayed, retained_without, span, spread, DataLogState,
    LogEntry, RetainedView,
};
use super::delivery::{forwards, read_len, serve, with_acks, ConsumeStatus};
use super::errors::RouterErrorView;
use super::events::{after_receipt, Progress, MAX_POLLS};
use super::graveyard::{buried, retrieved, unexpired, SavedStateView};
use super::invariants::{
    lemma_extend_requests, lemma_insert_shape, lemma_polled, lemma_remove_shape, lemma_remove_wf,
    lemma_set_shape, lemma_waiters_without, request_ok, requests_ok, subscribes, waiters_ok,
};
use super::iobufs::{IncomingMeterState, IncomingState, OutgoingState, MAX_INFLIGHT, MAX_PKID};
use super::logs::{
    find_log, lemma_find_log, lemma_matching, lemma_with_filter, log_index, matching, requests_of,
    AckLogState,
};
use super::messages::{
    record_event, AckView, ConnectionId, ConnectionState, DataRequest, Forward, NotificationView,
    MAX_EVENTS, MAX_SCHEDULE_ITERATIONS,
};
use super::requests::{
    asking, at_home, lemma_append_items_asking, lemma_asking_add, lemma_asking_elsewhere,
    lemma_asking_first, lemma_asking_push, lemma_asking_without, lemma_notified_asking,
    lemma_park_asked, lemma_parked_elsewhere, lemma_parked_opened, lemma_parked_update,
    lemma_requests_at_home, lemma_requests_of_add, lemma_requests_of_without, on,
};
use super::scheduler::{
    other_than, PauseReason, ScheduleReason, SchedulerState, Status, TrackerState,
};
use super::state::{
    all_rewound, connection_event, disconnection_event, lists, notified, will_publish, RouterState,
    Subscribing, Turn, Unsubscribing,
};
use super::validate::{clientid_valid, outside_tenant, subscription_verdict};
use crate::arena::Slots;
use crate::clock::{instant_nanos, Moment};
use crate::payload::bytes_content;
use crate::protocol::{
    spec_qos, ConnAck, ConnectReturnCode, Filter, Packet, Publish, PublishProperties,
};
use crate::registry::lemma_push_contains;
use crate::segments::laws::law_append_is_read_back;
use crate::segments::log::{Entry, Offset};
use crate::topic::topic_matches;
use std::time::Instant;
use vstd::prelude::*;
use vstd::utf8::{decode_utf8, valid_utf8};

verus! {

/// A connection has one number in all tables, and the tables never run ahead of
/// one another: they hand out the same number next.
pub proof fn law_tables_in_step(state: RouterState, id: ConnectionId)
    requires
        state.inv(),
    ensures
        state.connections.has(id) == state.live(id),
        state.ibufs.has(id) == state.live(id),
        state.ackslog.has(id) == state.live(id),
        state.scheduler.trackers.has(id) == state.live(id),
        state.live(id) ==> id < state.config.max_connections,
        state.ibufs.next_key() == state.connections.next_key(),
        state.obufs.next_key() == state.connections.next_key(),
        state.ackslog.next_key() == state.connections.next_key(),
        state.scheduler.trackers.next_key() == state.connections.next_key(),
{
    state.lemma_same_keys();
}

/// A client has at most one connection.
pub proof fn law_one_connection_per_client(state: RouterState, a: ConnectionId, b: ConnectionId)
    requires
        state.inv(),
        state.live(a),
        state.live(b),
        state.obufs.at(a).client_id == state.obufs.at(b).client_id,
    ensures
        a == b,
{
}

/// There are never more connections than there may be, and they are counted.
pub proof fn law_connections_are_counted(state: RouterState)
    requires
        state.inv(),
    ensures
        state.router_meters.total_connections == state.connections.count(),
        state.connections.count() <= state.config.max_connections,
{
}

/// Those who are listed under a filter are those who are connected and subscribed
/// to it, and who waits in a log is connected.
pub proof fn law_no_ghosts(state: RouterState, filter: Seq<char>, id: ConnectionId, i: int, k: int)
    requires
        state.inv(),
    ensures
        lists(state.subscription_map, filter, id) <==> state.live(id) && state.connections.at(
            id,
        ).subscriptions.contains(filter),
        0 <= i < state.datalog.native.len() && 0 <= k < state.datalog.native[i].waiters.len()
            ==> state.live(state.datalog.native[i].waiters[k].0),
{
    assert(subscribes(state.connections, filter, id) == lists(state.subscription_map, filter, id));
    assert(state.connections.has(id) == state.obufs.has(id));
    if 0 <= i < state.datalog.native.len() && 0 <= k < state.datalog.native[i].waiters.len() {
        let waiters = state.datalog.native[i].waiters;
        assert(state.obufs.has(waiters[k].0));
    }
}

/// A request always stands for the log of its filter, and never for acks that
/// are not supported.
pub proof fn law_requests_fit_their_logs(state: RouterState, id: ConnectionId, k: int)
    requires
        state.inv(),
        state.live(id),
        0 <= k < state.scheduler.trackers.at(id).data_requests.len(),
    ensures
        ({
            let request = state.scheduler.trackers.at(id).data_requests[k];
            &&& request.qos <= 1
            &&& request.filter_idx < state.datalog.native.len()
            &&& state.datalog.native[request.filter_idx as int].filter == request.filter@
        }),
{
    assert(state.connections.has(id));
    assert(state.scheduler.trackers.has(id));
    assert(request_ok(
        state.datalog.native,
        state.scheduler.trackers.at(id).data_requests[k],
    ));
}

/// A connection that is ready has its turn coming.
pub proof fn law_ready_is_queued(state: RouterState, id: ConnectionId)
    requires
        state.inv(),
        state.live(id),
        state.scheduler.trackers.at(id).status is Ready,
    ensures
        state.scheduler.readyqueue.contains(id),
{
    assert(state.connections.has(id));
    assert(state.scheduler.trackers.has(id));
}

/// No history grows beyond its limit.
pub proof fn law_history_is_bounded(state: RouterState, id: ConnectionId, client_id: Seq<char>)
    requires
        state.inv(),
    ensures
        state.live(id) ==> state.connections.at(id).events.len() <= MAX_EVENTS,
        state.graveyard.contains_key(client_id) ==> state.graveyard[client_id].metrics.len()
            <= MAX_EVENTS,
{
    if state.live(id) {
        assert(state.connections.has(id));
    }
}

/// A session that was saved comes back once, as it was, unless it has expired;
/// others are not touched by that.
pub proof fn law_saved_is_retrieved(
    saved: Map<Seq<char>, SavedStateView>,
    tracker: TrackerState,
    subscriptions: Set<Seq<char>>,
    metrics: Seq<Seq<char>>,
    expiry: Option<Instant>,
    now: Instant,
    other: Seq<char>,
)
    ensures
        ({
            let session = buried(tracker, subscriptions, metrics, expiry);
            let after = saved.insert(tracker.id, session);
            let left = unexpired(after, now).remove(tracker.id);
            &&& retrieved(after, tracker.id, now) == if session.alive(now) {
                Some(session)
            } else {
                None
            }
            &&& retrieved(left, tracker.id, now) is None
            &&& other != tracker.id ==> retrieved(left, other, now) == retrieved(saved, other, now)
        }),
{
}

/// To clean up again at a later time leaves what one cleaning at that time would
/// have left, and at the same time nothing changes. A session without an expiry
/// is never dropped.
pub proof fn law_cleaning_again(
    saved: Map<Seq<char>, SavedStateView>,
    first: Instant,
    second: Instant,
    client_id: Seq<char>,
)
    requires
        instant_nanos(first) <= instant_nanos(second),
    ensures
        unexpired(unexpired(saved, first), second) == unexpired(saved, second),
        unexpired(unexpired(saved, first), first) == unexpired(saved, first),
        saved.contains_key(client_id) && saved[client_id].expiry is None ==> unexpired(
            saved,
            first,
        ).contains_key(client_id) && unexpired(saved, first)[client_id] == saved[client_id],
{
    assert(unexpired(unexpired(saved, first), second) =~= unexpired(saved, second));
    assert(unexpired(unexpired(saved, first), first) =~= unexpired(saved, first));
}

/// A client whose id means something in filters is not let in, and one that
/// finds no room is turned away. Neither changes anything.
pub proof fn law_refused_connection(
    state: RouterState,
    connection: ConnectionState,
    incoming: IncomingState,
    outgoing: OutgoingState,
    moment: Moment,
)
    requires
        !clientid_valid(outgoing.client_id) || (!state.connection_map.contains_key(
            outgoing.client_id,
        ) && state.connections.count() >= state.config.max_connections),
    ensures
        state.connected(connection, incoming, outgoing, moment) == state,
{
}

/// A client that is let in has the next number, is the one connection of its
/// id, has its turn coming, and is told so.
pub proof fn law_admitted_connection(
    state: RouterState,
    connection: ConnectionState,
    incoming: IncomingState,
    outgoing: OutgoingState,
    moment: Moment,
)
    requires
        state.inv(),
        state.notifications.len() == 0,
        clientid_valid(outgoing.client_id),
        !state.connection_map.contains_key(outgoing.client_id),
        state.connections.count() < state.config.max_connections,
    ensures
        ({
            let id = state.connections.next_key();
            let after = state.connected(connection, incoming, outgoing, moment);
            let present = !connection.clean && retrieved(
                state.graveyard,
                outgoing.client_id,
                moment.now,
            ) is Some;
            &&& !state.live(id)
            &&& after.live(id)
            &&& after.connection_map.contains_key(outgoing.client_id)
            &&& after.connection_map[outgoing.client_id] == id
            &&& after.obufs.at(id) == outgoing
            &&& after.ibufs.at(id) == incoming
            &&& after.scheduler.trackers.at(id).status is Ready
            &&& after.scheduler.readyqueue.contains(id)
            &&& after.ackslog.at(id).committed == seq![
                AckView::ConnAck(
                    id,
                    ConnAck { session_present: present, code: ConnectReturnCode::Success },
                ),
            ]
            &&& after.connections.count() == state.connections.count() + 1
        }),
{
    let id = state.connections.next_key();
    let after = state.connected(connection, incoming, outgoing, moment);
    assert(after == state.admitted(connection, incoming, outgoing, moment));
    state.lemma_admitted(connection, incoming, outgoing, moment);
    state.lemma_same_keys();
    let row = after.connections.at(id);
    let found = retrieved(state.graveyard, outgoing.client_id, moment.now);
    let ack = AckView::ConnAck(
        id,
        ConnAck {
            session_present: !connection.clean && found is Some,
            code: ConnectReturnCode::Success,
        },
    );
    let full = AckLogState::empty().commit(ack);
    assert(full.committed =~= seq![ack]);
    lemma_insert_shape(state.connections, state.obufs, row, outgoing);
    lemma_insert_shape(state.connections, state.ibufs, row, incoming);
    lemma_insert_shape(state.connections, state.ackslog, row, full);
    let saved = match found {
        Some(saved) => saved,
        None => SavedStateView::new(outgoing.client_id),
    };
    let tracker = if connection.clean {
        TrackerState::new(outgoing.client_id)
    } else {
        saved.tracker
    };
    if found is Some {
        assert(state.graveyard.contains_key(outgoing.client_id));
    }
    lemma_insert_shape(state.connections, state.scheduler.trackers, row, tracker);
    let added = state.scheduler.add(tracker);
    lemma_set_shape(
        added.trackers,
        id,
        TrackerState { status: Status::Ready, ..added.trackers.at(id) },
    );
    lemma_push_contains(added.readyqueue, id, id);
}

/// A connection that ended is nowhere any more, and all others are still there.
pub proof fn law_disconnected_is_gone(
    state: RouterState,
    id: ConnectionId,
    execute_will: bool,
    moment: Moment,
    filter: Seq<char>,
    i: int,
    k: int,
    other: ConnectionId,
)
    requires
        state.inv(),
        state.notifications.len() == 0,
        state.live(id),
        state.disconnected(id, execute_will, moment).fits(),
    ensures
        ({
            let after = state.disconnected(id, execute_will, moment);
            let native = after.datalog.native;
            &&& !after.live(id)
            &&& !after.connections.has(id)
            &&& !after.ibufs.has(id)
            &&& !after.ackslog.has(id)
            &&& !after.scheduler.trackers.has(id)
            &&& !after.connection_map.contains_key(state.obufs.at(id).client_id)
            &&& !lists(after.subscription_map, filter, id)
            &&& 0 <= i < native.len() && 0 <= k < native[i].waiters.len()
                ==> native[i].waiters[k].0 != id
            &&& after.graveyard.contains_key(state.obufs.at(id).client_id)
            &&& other != id ==> after.live(other) == state.live(other)
        }),
{
    let after = state.disconnected(id, execute_will, moment);
    state.lemma_disconnected(id, execute_will, moment);
    state.lemma_leaving(id, execute_will, moment.now);
    law_tables_in_step(after, id);
    law_no_ghosts(after, filter, id, i, k);
    assert(after.live(other) <==> state.live(other) && other != id);
    let leaving = state.leaving(id, execute_will, moment.now);
    assert(leaving.connections.has(id));
    assert(leaving.obufs.has(id));
    assert(leaving.scheduler.trackers.at(id).id == leaving.obufs.at(id).client_id);
}

/// A connection that is gone does not end once more.
pub proof fn law_disconnection_is_idempotent(
    state: RouterState,
    id: ConnectionId,
    first: bool,
    second: bool,
    moment: Moment,
    later: Moment,
)
    requires
        state.inv(),
        state.notifications.len() == 0,
        state.disconnected(id, first, moment).fits(),
    ensures
        state.disconnected(id, first, moment).disconnected(id, second, later)
            == state.disconnected(id, first, moment),
{
    state.lemma_disconnected(id, first, moment);
}

/// Without being asked for, a last will is not published.
pub proof fn law_will_is_withheld(state: RouterState, id: ConnectionId, moment: Moment)
    requires
        state.live(id),
    ensures
        state.disconnected(id, false, moment).datalog == state.datalog.clean(id),
        state.disconnected(id, false, moment).notifications == state.notifications,
        state.disconnected(id, false, moment).router_meters.failed_publishes
            == state.router_meters.failed_publishes,
{
}

/// A client that says goodbye ends its connection, and has no last will.
pub proof fn law_goodbye(turn: Turn, id: ConnectionId, client_id: Seq<char>, now: Instant)
    requires
        !turn.stopped,
    ensures
        ({
            let after = turn.packet(id, client_id, Packet::Disconnect, now);
            &&& after.stopped
            &&& after.disconnect
            &&& !after.execute_will
            &&& after.state == turn.state.with_alert(AlertView::Disconnect(client_id))
        }),
{
}

/// What a connection keeps while it is about to end.
pub proof fn lemma_leaving_connection(
    state: RouterState,
    id: ConnectionId,
    execute_will: bool,
    now: Instant,
)
    requires
        state.inv(),
        state.live(id),
    ensures
        ({
            let before = state.connections.at(id);
            let after = state.leaving(id, execute_will, now).connections.at(id);
            &&& after.subscriptions == before.subscriptions
            &&& after.events == before.events
            &&& after.clean == before.clean
        }),
{
    assert(state.connections.has(id));
    let connection = state.connections.at(id);
    lemma_set_shape(
        state.connections,
        id,
        ConnectionState { last_will: None, ..connection },
    );
}

/// A client that comes back finds what it left: its subscriptions, and what was
/// asked for, from the oldest publish on that it has not acked. Where either
/// connection is a clean one, it starts anew. Its history is kept in any case.
/// It is listed under the filters that it is subscribed to, and no others.
pub proof fn law_session_is_resumed(
    state: RouterState,
    id: ConnectionId,
    execute_will: bool,
    left: Moment,
    connection: ConnectionState,
    incoming: IncomingState,
    outgoing: OutgoingState,
    back: Moment,
    filter: Seq<char>,
)
    requires
        state.inv(),
        state.notifications.len() == 0,
        state.live(id),
        outgoing.client_id == state.obufs.at(id).client_id,
        clientid_valid(outgoing.client_id),
        state.disconnected(id, execute_will, left).fits(),
    ensures
        ({
            let old = state.connections.at(id);
            let gone = state.disconnected(id, execute_will, left);
            let leaving = state.leaving(id, execute_will, left.now);
            let new = gone.connections.next_key();
            let after = gone.connected(connection, incoming, outgoing, back);
            let asked = all_rewound(
                leaving.scheduler.trackers.at(id).data_requests + parked(
                    leaving.datalog.native,
                    id,
                ),
                state.obufs.at(id).inflight,
            );
            let events = record_event(
                record_event(old.events, disconnection_event(left.time@)),
                connection_event(back.time@, connection.clean),
            );
            &&& after.live(new)
            &&& lists(after.subscription_map, filter, new)
                <==> after.connections.at(new).subscriptions.contains(filter)
            &&& after.connections.at(new).events == events
            &&& after.ackslog.at(new).committed == seq![
                AckView::ConnAck(
                    new,
                    ConnAck {
                        session_present: !connection.clean,
                        code: ConnectReturnCode::Success,
                    },
                ),
            ]
            &&& connection.clean ==> {
                &&& after.connections.at(new).subscriptions == connection.subscriptions
                &&& after.scheduler.trackers.at(new).data_requests.len() == 0
            }
            &&& !connection.clean && !old.clean ==> {
                &&& after.connections.at(new).subscriptions == old.subscriptions
                &&& after.scheduler.trackers.at(new).data_requests == asked
            }
            &&& !connection.clean && old.clean ==> {
                &&& after.connections.at(new).subscriptions == Set::<Seq<char>>::empty()
                &&& after.scheduler.trackers.at(new).data_requests.len() == 0
            }
        }),
{
    let old = state.connections.at(id);
    let gone = state.disconnected(id, execute_will, left);
    let leaving = state.leaving(id, execute_will, left.now);
    let client_id = outgoing.client_id;
    state.lemma_disconnected(id, execute_will, left);
    state.lemma_leaving(id, execute_will, left.now);
    lemma_leaving_connection(state, id, execute_will, left.now);
    law_disconnected_is_gone(state, id, execute_will, left, client_id, 0, 0, id);
    let session = leaving.session(id, left.time@);
    assert(leaving.connections.has(id));
    assert(leaving.obufs.has(id));
    assert(leaving.scheduler.trackers.at(id).id == client_id);
    assert(session.tracker.id == client_id);
    assert(gone.graveyard[client_id] == session);
    assert(retrieved(gone.graveyard, client_id, back.now) == Some(session));
    leaving.lemma_room_after(id, left.time@);
    law_admitted_connection(gone, connection, incoming, outgoing, back);
    let after = gone.admitted(connection, incoming, outgoing, back);
    assert(after == gone.connected(connection, incoming, outgoing, back));
    let new = gone.connections.next_key();
    let full = ConnectionState {
        subscriptions: if connection.clean {
            connection.subscriptions
        } else {
            session.subscriptions
        },
        events: record_event(
            session.metrics,
            connection_event(back.time@, connection.clean),
        ),
        ..connection
    };
    let tracker = if connection.clean {
        TrackerState::new(client_id)
    } else {
        session.tracker
    };
    gone.lemma_same_keys();
    lemma_insert_shape(gone.connections, gone.scheduler.trackers, full, tracker);
    let added = gone.scheduler.add(tracker);
    lemma_set_shape(
        added.trackers,
        new,
        TrackerState { status: Status::Ready, ..added.trackers.at(new) },
    );
    assert(after.connections.at(new) == full);
    assert(after.scheduler.trackers.at(new).data_requests == tracker.data_requests);
    gone.lemma_admitted(connection, incoming, outgoing, back);
    law_no_ghosts(after, filter, new, 0, 0);
}

/// Entries that go to different logs go to each once.
pub proof fn lemma_spread(datalog: DataLogState, idxs: Seq<usize>, entry: LogEntry, i: int)
    requires
        0 <= i < datalog.native.len() <= usize::MAX,
        forall|k: int| 0 <= k < idxs.len() ==> (#[trigger] idxs[k]) < datalog.native.len(),
        forall|j: int, k: int| 0 <= j < k < idxs.len() ==> idxs[j] < idxs[k],
    ensures
        datalog.append_items(spread(idxs, entry)).native.len() == datalog.native.len(),
        datalog.append_items(spread(idxs, entry)).native[i] == if idxs.contains(i as usize) {
            datalog.native[i].append(entry, LogEntry::weight(entry)).drained()
        } else {
            datalog.native[i]
        },
        forall|k: int|
            0 <= k < datalog.native[i].waiters.len() && idxs.contains(i as usize)
                ==> datalog.woken(spread(idxs, entry)).contains(
                #[trigger] datalog.native[i].waiters[k],
            ),
    decreases idxs.len(),
{
    if idxs.len() > 0 {
        let shorter = idxs.drop_last();
        assert forall|k: int| 0 <= k < shorter.len() implies (#[trigger] shorter[k])
            < datalog.native.len() by {
            assert(shorter[k] == idxs[k]);
        }
        lemma_spread(datalog, shorter, entry, i);
        assert(spread(idxs, entry).drop_last() =~= spread(shorter, entry));
        assert(spread(idxs, entry).last() == (idxs.last(), entry));
        assert(idxs[idxs.len() - 1] == idxs.last());
        let before = datalog.append_items(spread(shorter, entry));
        let told = datalog.woken(spread(shorter, entry));
        let more = before.native[idxs.last() as int].waiters;
        if idxs.last() == i {
            assert(idxs.contains(i as usize));
            if shorter.contains(i as usize) {
                let k = choose|k: int| 0 <= k < shorter.len() && shorter[k] == i;
                assert(idxs[k] < idxs[idxs.len() - 1]);
            }
            assert forall|k: int| 0 <= k < datalog.native[i].waiters.len() implies (told
                + more).contains(#[trigger] datalog.native[i].waiters[k]) by {
                assert((told + more)[told.len() + k] == datalog.native[i].waiters[k]);
            }
        } else {
            if idxs.contains(i as usize) {
                let k = choose|k: int| 0 <= k < idxs.len() && idxs[k] == i;
                assert(shorter[k] == i);
            }
            if shorter.contains(i as usize) {
                let k = choose|k: int| 0 <= k < shorter.len() && shorter[k] == i;
                assert(idxs[k] == i);
                assert forall|k: int| 0 <= k < datalog.native[i].waiters.len() implies (told
                    + more).contains(#[trigger] datalog.native[i].waiters[k]) by {
                    assert(told.contains(datalog.native[i].waiters[k]));
                    let j = choose|j: int|
                        0 <= j < told.len() && told[j] == datalog.native[i].waiters[k];
                    assert((told + more)[j] == datalog.native[i].waiters[k]);
                }
            }
        }
    }
}

/// A publish goes to each log whose filter selects its topic, once, and to no
/// other; and all who waited there are told.
pub proof fn law_publish_reaches_its_logs(
    datalog: DataLogState,
    connection: ConnectionState,
    publish: Publish,
    props: Option<PublishProperties>,
    now: Instant,
    i: int,
    k: int,
)
    requires
        datalog.wf(),
        append_publish(datalog, connection, publish, props, now).outcome is Ok,
        matching(
            datalog.native,
            decode_utf8(bytes_content(publish.topic)),
        ).len() > 0,
        0 <= i < datalog.native.len(),
    ensures
        ({
            let topic = decode_utf8(bytes_content(publish.topic));
            let entry = LogEntry {
                publish: Publish { retain: false, ..publish },
                expiry: publish_expiry(props, now),
            };
            let appended = append_publish(datalog, connection, publish, props, now);
            let before = datalog.native[i];
            let after = appended.datalog.native[i];
            &&& appended.datalog.native.len() == datalog.native.len()
            &&& after.filter == before.filter
            &&& topic_matches(topic, before.filter) ==> {
                &&& after.log == before.log.append(entry, LogEntry::weight(entry))
                &&& after.waiters.len() == 0
                &&& 0 <= k < before.waiters.len() ==> appended.woken.contains(before.waiters[k])
            }
            &&& !topic_matches(topic, before.filter) ==> after == before
        }),
{
    let topic = decode_utf8(bytes_content(publish.topic));
    let kept = after_retention(datalog, topic, publish, props);
    let entry = LogEntry {
        publish: Publish { retain: false, ..publish },
        expiry: publish_expiry(props, now),
    };
    let idxs = matching(kept.native, topic);
    lemma_matching(kept.native, topic);
    lemma_spread(kept, idxs, entry, i);
    if topic_matches(topic, kept.native[i].filter) {
        assert(kept.native[(i as usize) as int] == kept.native[i]);
        assert(idxs.contains(i as usize));
    } else if idxs.contains(i as usize) {
        let j = choose|j: int| 0 <= j < idxs.len() && idxs[j] == i as usize;
        assert(topic_matches(topic, kept.native[idxs[j] as int].filter));
    }
}

/// A publish that fails goes to no log, and wakes nobody.
pub proof fn law_failed_publish_changes_no_log(
    datalog: DataLogState,
    connection: ConnectionState,
    publish: Publish,
    props: Option<PublishProperties>,
    now: Instant,
)
    requires
        append_publish(datalog, connection, publish, props, now).outcome is Err,
    ensures
        append_publish(datalog, connection, publish, props, now).datalog.native == datalog.native,
        append_publish(datalog, connection, publish, props, now).woken.len() == 0,
{
}

/// Where no filter selects a topic, a client with dynamic filters gets its
/// publish into a log of the topic itself, and any other client is refused.
pub proof fn law_dynamic_filter(
    datalog: DataLogState,
    connection: ConnectionState,
    publish: Publish,
    props: Option<PublishProperties>,
    now: Instant,
)
    requires
        datalog.wf(),
        valid_utf8(bytes_content(publish.topic)),
        !outside_tenant(
            connection,
            datalog.config.validate_tenant_prefix,
            decode_utf8(bytes_content(publish.topic)),
        ),
        matching(datalog.native, decode_utf8(bytes_content(publish.topic))).len() == 0,
        datalog.native.len() < usize::MAX,
    ensures
        ({
            let topic = decode_utf8(bytes_content(publish.topic));
            let entry = LogEntry {
                publish: Publish { retain: false, ..publish },
                expiry: publish_expiry(props, now),
            };
            let opened = datalog.ensure_log(topic);
            let idx = log_index(datalog.native, topic) as int;
            let appended = append_publish(datalog, connection, publish, props, now);
            &&& appended.outcome is Ok <==> connection.dynamic_filters
            &&& !connection.dynamic_filters ==> appended.outcome == Err::<Offset, RouterErrorView>(
                RouterErrorView::NoMatchingFilters(topic),
            )
            &&& connection.dynamic_filters ==> {
                &&& appended.datalog.native.len() == opened.native.len()
                &&& appended.datalog.native[idx].filter == topic
                &&& appended.datalog.native[idx].log == opened.native[idx].log.append(
                    entry,
                    LogEntry::weight(entry),
                )
            }
        }),
{
    let topic = decode_utf8(bytes_content(publish.topic));
    let kept = after_retention(datalog, topic, publish, props);
    let entry = LogEntry {
        publish: Publish { retain: false, ..publish },
        expiry: publish_expiry(props, now),
    };
    lemma_with_filter(kept.native, topic, kept.config);
    let idx = log_index(kept.native, topic);
    lemma_spread(kept.ensure_log(topic), seq![idx], entry, idx as int);
    assert(seq![idx].contains(idx)) by {
        assert(seq![idx][0] == idx);
    }
}

/// After a client with dynamic filters has published to a topic that no filter
/// selects, a publish of any client to that topic succeeds. It goes behind the
/// first one, into the log that was opened for it and into no other. Topics that
/// start with `$` are left out: no filter selects them, so that a client without
/// dynamic filters is still refused.
pub proof fn law_dynamic_filter_stays(
    datalog: DataLogState,
    connection: ConnectionState,
    publish: Publish,
    props: Option<PublishProperties>,
    now: Instant,
    other: ConnectionState,
    next: Publish,
    next_props: Option<PublishProperties>,
    later: Instant,
    i: int,
)
    requires
        datalog.wf(),
        valid_utf8(bytes_content(publish.topic)),
        !outside_tenant(
            connection,
            datalog.config.validate_tenant_prefix,
            decode_utf8(bytes_content(publish.topic)),
        ),
        matching(datalog.native, decode_utf8(bytes_content(publish.topic))).len() == 0,
        datalog.native.len() < usize::MAX,
        connection.dynamic_filters,
        !(decode_utf8(bytes_content(publish.topic)).len() > 0 && decode_utf8(
            bytes_content(publish.topic),
        )[0] == '$'),
        bytes_content(next.topic) == bytes_content(publish.topic),
        !outside_tenant(
            other,
            datalog.config.validate_tenant_prefix,
            decode_utf8(bytes_content(next.topic)),
        ),
    ensures
        ({
            let topic = decode_utf8(bytes_content(publish.topic));
            let first = LogEntry {
                publish: Publish { retain: false, ..publish },
                expiry: publish_expiry(props, now),
            };
            let second = LogEntry {
                publish: Publish { retain: false, ..next },
                expiry: publish_expiry(next_props, later),
            };
            let idx = datalog.native.len() as int;
            let opened = datalog.ensure_log(topic).native[idx].log;
            let once = append_publish(datalog, connection, publish, props, now);
            let twice = append_publish(once.datalog, other, next, next_props, later);
            &&& once.outcome is Ok
            &&& twice.outcome is Ok
            &&& twice.datalog.native.len() == idx + 1
            &&& twice.datalog.native[idx].filter == topic
            &&& twice.datalog.native[idx].log == opened.append(
                first,
                LogEntry::weight(first),
            ).append(second, LogEntry::weight(second))
            &&& 0 <= i < idx ==> twice.datalog.native[i] == datalog.native[i]
        }),
{
    let topic = decode_utf8(bytes_content(publish.topic));
    let native = datalog.native;
    let idx = native.len() as int;
    let first = LogEntry {
        publish: Publish { retain: false, ..publish },
        expiry: publish_expiry(props, now),
    };
    let kept = after_retention(datalog, topic, publish, props);
    let opened = kept.ensure_log(topic);
    let once = append_publish(datalog, connection, publish, props, now);
    law_dynamic_filter(datalog, connection, publish, props, now);
    crate::topic::law_topic_selects_itself(topic);
    lemma_matching(native, topic);
    lemma_find_log(native, topic);
    if let Some(at) = find_log(native, topic) {
        assert(topic_matches(topic, native[at as int].filter));
        assert(matching(native, topic).contains(at));
    }
    lemma_with_filter(native, topic, kept.config);
    assert(log_index(native, topic) == idx);
    assert(opened.native.len() == idx + 1);
    assert forall|j: int| 0 <= j < idx implies #[trigger] once.datalog.native[j] == native[j] by {
        lemma_spread(opened, seq![idx as usize], first, j);
        if seq![idx as usize].contains(j as usize) {
            assert(seq![idx as usize][0] == j as usize);
        }
        assert(opened.native[j] == native[j]);
    }
    opened.lemma_append_items(spread(seq![idx as usize], first));
    let after = once.datalog.native;
    assert(after[(idx as usize) as int].filter == topic);
    lemma_matching(after, topic);
    assert(matching(after, topic).contains(idx as usize));
    let twice = append_publish(once.datalog, other, next, next_props, later);
    law_publish_reaches_its_logs(once.datalog, other, next, next_props, later, idx, 0);
    if 0 <= i < idx {
        assert(after[i] == native[i]);
        if topic_matches(topic, native[i].filter) {
            assert(native[(i as usize) as int] == native[i]);
            assert(matching(native, topic).contains(i as usize));
        }
        law_publish_reaches_its_logs(once.datalog, other, next, next_props, later, i, 0);
    }
}

/// Whether of two tables of inboxes the second differs at most in the meter of
/// one connection.
pub open spec fn same_inboxes(
    before: Slots<IncomingState>,
    after: Slots<IncomingState>,
    id: ConnectionId,
) -> bool {
    &&& forall|key: ConnectionId| #[trigger] after.has(key) == before.has(key)
    &&& after.at(id).buffer == before.at(id).buffer
    &&& after.at(id).client_id == before.at(id).client_id
    &&& forall|other: ConnectionId|
        other != id && before.has(other) ==> #[trigger] after.at(other) == before.at(other)
}

/// A row that keeps what its inbox holds changes no other inbox.
proof fn lemma_same_inboxes(
    before: Slots<IncomingState>,
    after: Slots<IncomingState>,
    id: ConnectionId,
    row: IncomingState,
)
    requires
        before.has(id),
        same_inboxes(before, after, id),
        row.buffer == after.at(id).buffer,
        row.client_id == after.at(id).client_id,
    ensures
        after.has(id),
        same_inboxes(before, after.set(id, row), id),
{
    assert(after.has(id));
    lemma_set_shape(after, id, row);
    assert forall|key: ConnectionId| #[trigger] after.set(id, row).has(key) == before.has(key) by {
        assert(after.has(key) == before.has(key));
    }
    assert forall|other: ConnectionId|
        other != id && before.has(other) implies #[trigger] after.set(id, row).at(other)
        == before.at(other) by {
        assert(after.has(other));
    }
}

proof fn lemma_subscribing_inboxes(from: Subscribing, id: ConnectionId, filters: Seq<Filter>)
    requires
        from.state.ibufs.has(id),
    ensures
        same_inboxes(from.state.ibufs, from.filters(id, filters).state.ibufs, id),
    decreases filters.len(),
{
    if filters.len() > 0 {
        lemma_subscribing_inboxes(from, id, filters.drop_last());
        let before = from.filters(id, filters.drop_last()).state.ibufs;
        let after = from.filters(id, filters).state.ibufs;
        if after != before {
            let incoming = before.at(id);
            let row = IncomingState {
                meter: IncomingMeterState {
                    subscriptions: incoming.meter.subscriptions.insert(filters.last().path@),
                    ..incoming.meter
                },
                ..incoming
            };
            lemma_same_inboxes(from.state.ibufs, before, id, row);
            assert(after == before.set(id, row));
        }
    }
}

proof fn lemma_unsubscribing_inboxes(
    from: Unsubscribing,
    id: ConnectionId,
    filters: Seq<String>,
    pkid: u16,
)
    requires
        from.state.ibufs.has(id),
    ensures
        same_inboxes(from.state.ibufs, from.filters(id, filters, pkid).state.ibufs, id),
    decreases filters.len(),
{
    if filters.len() > 0 {
        lemma_unsubscribing_inboxes(from, id, filters.drop_last(), pkid);
        let before = from.filters(id, filters.drop_last(), pkid).state.ibufs;
        let after = from.filters(id, filters, pkid).state.ibufs;
        if after != before {
            let incoming = before.at(id);
            let row = IncomingState {
                meter: IncomingMeterState {
                    subscriptions: incoming.meter.subscriptions.remove(filters.last()@),
                    ..incoming.meter
                },
                ..incoming
            };
            lemma_same_inboxes(from.state.ibufs, before, id, row);
            assert(after == before.set(id, row));
        }
    }
}

proof fn lemma_packet_inboxes(
    turn: Turn,
    id: ConnectionId,
    client_id: Seq<char>,
    packet: Packet,
    now: Instant,
)
    requires
        turn.state.ibufs.has(id),
    ensures
        same_inboxes(
            turn.state.ibufs,
            turn.packet(id, client_id, packet, now).state.ibufs,
            id,
        ),
{
    match packet {
        Packet::Subscribe(subscribe) => {
            lemma_subscribing_inboxes(
                Subscribing { state: turn.state, codes: Seq::empty(), refused: false },
                id,
                subscribe.filters@,
            );
        },
        Packet::Unsubscribe(unsubscribe) => {
            lemma_unsubscribing_inboxes(
                Unsubscribing { state: turn.state, any: false },
                id,
                unsubscribe.filters@,
                unsubscribe.pkid,
            );
        },
        _ => {},
    }
}

pub proof fn lemma_packets_inboxes(turn: Turn, id: ConnectionId, packets: Seq<Packet>, now: Instant)
    requires
        turn.state.ibufs.has(id),
    ensures
        same_inboxes(turn.state.ibufs, turn.packets(id, packets, now).state.ibufs, id),
    decreases packets.len(),
{
    if packets.len() > 0 {
        let shorter = packets.drop_last();
        lemma_packets_inboxes(turn, id, shorter, now);
        lemma_packet_inboxes(
            turn.packets(id, shorter, now),
            id,
            turn.state.ibufs.at(id).client_id,
            packets.last(),
            now,
        );
    }
}

/// When what a connection sent has been handled, its inbox is empty, unless it
/// is gone; and the inboxes of all others are as they were.
pub proof fn law_inbox_is_emptied(
    state: RouterState,
    id: ConnectionId,
    moment: Moment,
    other: ConnectionId,
)
    requires
        state.inv(),
    ensures
        ({
            let after = state.payload_handled(id, moment);
            &&& after.ibufs.has(id) ==> after.ibufs.at(id).buffer.len() == 0
            &&& other != id ==> after.ibufs.has(other) == state.ibufs.has(other)
            &&& other != id && state.ibufs.has(other) ==> after.ibufs.at(other)
                == state.ibufs.at(other)
        }),
{
    if state.ibufs.has(id) {
        let start = state.turn(id);
        let packets = state.ibufs.at(id).buffer;
        lemma_set_shape(
            state.ibufs,
            id,
            IncomingState { buffer: Seq::empty(), ..state.ibufs.at(id) },
        );
        lemma_packets_inboxes(start, id, packets, moment.now);
        let done = start.packets(id, packets, moment.now);
        assert(done.state.ibufs.has(id));
        assert(done.state.ibufs.has(other) == start.state.ibufs.has(other));
        assert(start.state.ibufs.has(other) == state.ibufs.has(other));
        assert(done.state.ibufs.at(id).buffer.len() == 0);
        if other != id && state.ibufs.has(other) {
            assert(start.state.ibufs.at(other) == state.ibufs.at(other));
            assert(done.state.ibufs.at(other) == start.state.ibufs.at(other));
        }
        let after = done.finish(id, moment);
        assert(after.ibufs == done.state.ibufs || after.ibufs == done.state.ibufs.remove(id));
    }
}

/// Each ping is answered once, and changes nothing else.
pub proof fn law_pings_are_answered(turn: Turn, id: ConnectionId, n: nat, now: Instant)
    requires
        turn.state.ackslog.has(id),
        !turn.stopped,
    ensures
        ({
            let acks = turn.state.ackslog.at(id);
            let answers = Seq::new(n, |i: int| AckView::PingResp);
            turn.packets(id, Seq::new(n, |i: int| Packet::PingReq), now) == Turn {
                state: RouterState {
                    ackslog: turn.state.ackslog.set(
                        id,
                        AckLogState { committed: acks.committed + answers, ..acks },
                    ),
                    ..turn.state
                },
                force_ack: turn.force_ack || n > 0,
                ..turn
            }
        }),
    decreases n,
{
    let acks = turn.state.ackslog.at(id);
    let answers = Seq::new(n, |i: int| AckView::PingResp);
    let pings = Seq::new(n, |i: int| Packet::PingReq);
    if n == 0 {
        assert(acks.committed + answers =~= acks.committed);
        assert(turn.state.ackslog.set(id, acks).rows =~= turn.state.ackslog.rows);
    } else {
        let fewer = (n - 1) as nat;
        law_pings_are_answered(turn, id, fewer, now);
        assert(pings.drop_last() =~= Seq::new(fewer, |i: int| Packet::PingReq));
        let before = Seq::new(fewer, |i: int| AckView::PingResp);
        assert((acks.committed + before).push(AckView::PingResp) =~= acks.committed + answers);
        let early = AckLogState { committed: acks.committed + before, ..acks };
        let late = AckLogState { committed: acks.committed + answers, ..acks };
        assert(turn.state.ackslog.set(id, early).set(id, late).rows =~= turn.state.ackslog.set(
            id,
            late,
        ).rows);
    }
}

/// Acks are taken in the order in which publishes were sent. One that is not
/// for the oldest publish ends the connection.
pub proof fn law_acks_are_in_order(turn: Turn, id: ConnectionId, pkid: u16)
    requires
        turn.state.obufs.has(id),
        !turn.stopped,
    ensures
        ({
            let inflight = turn.state.obufs.at(id).inflight;
            let after = turn.puback(id, pkid);
            if inflight.len() > 0 && inflight[0].0 == pkid {
                &&& !after.stopped
                &&& after.disconnect == turn.disconnect
                &&& after.state.obufs.at(id).inflight == inflight.subrange(
                    1,
                    inflight.len() as int,
                )
            } else {
                &&& after.stopped
                &&& after.disconnect
            }
        }),
{
    lemma_set_shape(turn.state.obufs, id, turn.state.obufs.at(id).acked());
}

/// Publishes that are sent with acks are numbered from 1 up to a limit, and
/// then from 1 again.
pub proof fn law_packet_ids(
    outgoing: OutgoingState,
    forward: Forward,
    filter_idx: usize,
)
    requires
        outgoing.last_pkid < MAX_PKID,
    ensures
        ({
            let after = outgoing.push_forward(forward, 1, filter_idx);
            &&& after.inflight == outgoing.inflight.push(
                ((outgoing.last_pkid + 1) as u16, filter_idx, forward.cursor),
            )
            &&& after.last_pkid < MAX_PKID
            &&& after.last_pkid == if outgoing.last_pkid + 1 == MAX_PKID {
                0
            } else {
                outgoing.last_pkid + 1
            }
        }),
{
}

/// Serving a request sends no more than may be without an ack.
proof fn lemma_serve_inflight(
    state: RouterState,
    request: DataRequest,
    outgoing: OutgoingState,
    now: Instant,
)
    requires
        state.inv(),
        request_ok(state.datalog.native, request),
        outgoing.inflight.len() <= MAX_INFLIGHT,
    ensures
        serve(request, state.datalog, outgoing, state.alertlog, now).outgoing.inflight.len()
            <= MAX_INFLIGHT,
{
    let log = state.datalog.native[request.filter_idx as int].log;
    let most = read_len(request, state.datalog, outgoing);
    lemma_span(log, request.cursor, most, now);
    let read = log.read(request.cursor, span(log, request.cursor, most, now));
    let sent = forwards(deliverable(read, now), request.qos);
    outgoing.lemma_push_forwards(sent, request.qos, request.filter_idx);
}

/// Whether nothing more is on its way to any client than may be without an ack.
pub open spec fn inflight_bounded(state: RouterState) -> bool {
    forall|id: ConnectionId| #[trigger]
        state.obufs.has(id) ==> state.obufs.at(id).inflight.len() <= MAX_INFLIGHT
}

proof fn lemma_served_inflight(
    state: RouterState,
    id: ConnectionId,
    requests: Seq<DataRequest>,
    n: nat,
    now: Instant,
)
    requires
        state.inv(),
        state.live(id),
        requests_ok(state.datalog.native, requests),
        inflight_bounded(state),
    ensures
        inflight_bounded(state.served(id, requests, n, now)),
    decreases n,
{
    if n > 0 && requests.len() > 0 {
        let rest = requests.subrange(1, requests.len() as int);
        let request = requests[0];
        assert(request_ok(state.datalog.native, requests[0]));
        let out = serve(request, state.datalog, state.obufs.at(id), state.alertlog, now);
        lemma_serve_inflight(state, request, state.obufs.at(id), now);
        state.lemma_serve(id, request, now);
        lemma_set_shape(state.obufs, id, out.outgoing);
        let next = RouterState {
            obufs: state.obufs.set(id, out.outgoing),
            alertlog: out.alertlog,
            ..state
        };
        assert(inflight_bounded(next)) by {
            assert forall|other: ConnectionId| #[trigger] next.obufs.has(
                other,
            ) implies next.obufs.at(other).inflight.len() <= MAX_INFLIGHT by {
                assert(state.obufs.has(other));
            }
        }
        lemma_serving_on(state, requests, out.request);
        if out.status is FilterCaughtup {
            next.lemma_park(id, out.request);
            let aside = RouterState { datalog: next.datalog.park(id, out.request), ..next };
            lemma_extend_requests(next.datalog.native, aside.datalog.native, rest);
            lemma_served_inflight(aside, id, rest, (n - 1) as nat, now);
        } else if out.status is PartialRead {
            lemma_served_inflight(next, id, rest.push(out.request), (n - 1) as nat, now);
        }
    }
}

/// When connections have their turn, no more is sent to any client than may be
/// without an ack.
pub proof fn law_inflight_is_bounded(state: RouterState, now: Instant)
    requires
        state.inv(),
        inflight_bounded(state),
    ensures
        inflight_bounded(state.consumed(now)),
{
    if state.scheduler.readyqueue.len() > 0 {
        let id = state.scheduler.readyqueue[0];
        lemma_polled(state.datalog.native, state.scheduler);
        state.lemma_with_scheduler(state.scheduler.polled());
        let polled = RouterState { scheduler: state.scheduler.polled(), ..state };
        if state.live(id) {
            polled.lemma_acked(id);
            let acked = polled.acked(id);
            let acks = polled.ackslog.at(id);
            lemma_set_shape(polled.obufs, id, with_acks(polled.obufs.at(id), acks.committed));
            assert(inflight_bounded(acked)) by {
                assert forall|other: ConnectionId| #[trigger] acked.obufs.has(
                    other,
                ) implies acked.obufs.at(other).inflight.len() <= MAX_INFLIGHT by {
                    assert(state.obufs.has(other));
                }
            }
            lemma_served_inflight(
                acked,
                id,
                state.scheduler.polled_requests(),
                MAX_SCHEDULE_ITERATIONS as nat,
                now,
            );
        }
    }
}

/// A publish takes no request from any connection, and gives none, whatever
/// filters are looked at.
pub proof fn law_requests_survive_publish(
    state: RouterState,
    publisher: ConnectionId,
    publish: Publish,
    props: Option<PublishProperties>,
    now: Instant,
    id: ConnectionId,
    kind: spec_fn(Seq<char>) -> bool,
)
    requires
        state.inv(),
        state.published(publisher, publish, props, now).fits(),
    ensures
        state.published(publisher, publish, props, now).asked(id, kind) == state.asked(id, kind),
{
    state.lemma_published_asked(publisher, publish, props, now, id, kind);
}

/// Telling those who waited takes no request from any connection, and gives
/// none, whatever filters are looked at.
pub proof fn law_requests_survive_settling(
    state: RouterState,
    id: ConnectionId,
    kind: spec_fn(Seq<char>) -> bool,
)
    requires
        state.inv(),
        state.live(id),
    ensures
        state.settled().asked(id, kind) == state.asked(id, kind),
{
    assert(state.connections.has(id));
    assert(state.scheduler.trackers.has(id));
    lemma_notified_asking(state.scheduler, state.notifications, id, kind);
}

proof fn lemma_served_asked(
    state: RouterState,
    id: ConnectionId,
    requests: Seq<DataRequest>,
    n: nat,
    now: Instant,
    other: ConnectionId,
    kind: spec_fn(Seq<char>) -> bool,
)
    requires
        state.inv(),
        state.live(id),
        state.live(other),
        requests_ok(state.datalog.native, requests),
    ensures
        state.served(id, requests, n, now).asked(other, kind) == state.asked(other, kind)
            + if other == id {
            asking(requests, kind)
        } else {
            0
        },
    decreases n,
{
    assert(state.connections.has(id));
    assert(state.scheduler.trackers.has(id));
    assert(state.connections.has(other));
    assert(state.scheduler.trackers.has(other));
    if n == 0 {
        lemma_trackv_asking(state.scheduler, id, requests, other, kind);
    } else if requests.len() == 0 {
        lemma_pause_requests(state.scheduler, id, PauseReason::Caughtup, other);
    } else {
        let rest = requests.subrange(1, requests.len() as int);
        let request = requests[0];
        assert(request_ok(state.datalog.native, requests[0]));
        let out = serve(request, state.datalog, state.obufs.at(id), state.alertlog, now);
        state.lemma_serve(id, request, now);
        lemma_set_shape(state.obufs, id, out.outgoing);
        let next = RouterState {
            obufs: state.obufs.set(id, out.outgoing),
            alertlog: out.alertlog,
            ..state
        };
        assert(next.live(other));
        lemma_serving_on(state, requests, out.request);
        lemma_asking_first(requests, kind);
        lemma_asking_push(rest, out.request, kind);
        match out.status {
            ConsumeStatus::FilterCaughtup => {
                next.lemma_park(id, out.request);
                let aside = RouterState { datalog: next.datalog.park(id, out.request), ..next };
                lemma_extend_requests(next.datalog.native, aside.datalog.native, rest);
                lemma_park_asked(next.datalog.native, id, out.request, other, kind);
                lemma_served_asked(aside, id, rest, (n - 1) as nat, now, other, kind);
            },
            ConsumeStatus::PartialRead => {
                lemma_served_asked(
                    next,
                    id,
                    rest.push(out.request),
                    (n - 1) as nat,
                    now,
                    other,
                    kind,
                );
            },
            ConsumeStatus::BufferFull => {
                lemma_pause_requests(next.scheduler, id, PauseReason::Busy, other);
                let paused = next.scheduler.pause(id, PauseReason::Busy);
                lemma_trackv_asking(paused, id, rest.push(out.request), other, kind);
            },
            ConsumeStatus::InflightFull => {
                lemma_pause_requests(next.scheduler, id, PauseReason::InflightFull, other);
                let paused = next.scheduler.pause(id, PauseReason::InflightFull);
                lemma_trackv_asking(paused, id, rest.push(out.request), other, kind);
            },
        }
    }
}

/// After a request was served, what is left can be served.
proof fn lemma_serving_on(
    state: RouterState,
    requests: Seq<DataRequest>,
    request: DataRequest,
)
    requires
        requests.len() > 0,
        requests_ok(state.datalog.native, requests),
        request_ok(state.datalog.native, request),
    ensures
        ({
            let rest = requests.subrange(1, requests.len() as int);
            &&& requests_ok(state.datalog.native, rest)
            &&& requests_ok(state.datalog.native, rest.push(request))
        }),
{
    let native = state.datalog.native;
    let rest = requests.subrange(1, requests.len() as int);
    assert forall|k: int| 0 <= k < rest.len() implies request_ok(native, #[trigger] rest[k]) by {
        assert(rest[k] == requests[k + 1]);
    }
}

proof fn lemma_trackv_asking(
    scheduler: SchedulerState,
    id: ConnectionId,
    requests: Seq<DataRequest>,
    other: ConnectionId,
    kind: spec_fn(Seq<char>) -> bool,
)
    requires
        scheduler.trackers.has(id),
        scheduler.trackers.has(other),
    ensures
        asking(scheduler.trackv(id, requests).trackers.at(other).data_requests, kind) == asking(
            scheduler.trackers.at(other).data_requests,
            kind,
        ) + if other == id {
            asking(requests, kind)
        } else {
            0
        },
{
    let tracker = scheduler.trackers.at(id);
    lemma_set_shape(
        scheduler.trackers,
        id,
        TrackerState { data_requests: tracker.data_requests + requests, ..tracker },
    );
    lemma_asking_add(tracker.data_requests, requests, kind);
}

proof fn lemma_pause_requests(
    scheduler: SchedulerState,
    id: ConnectionId,
    reason: PauseReason,
    other: ConnectionId,
)
    requires
        scheduler.trackers.has(id),
        scheduler.trackers.has(other),
    ensures
        scheduler.pause(id, reason).trackers.has(id),
        scheduler.pause(id, reason).trackers.has(other),
        scheduler.pause(id, reason).trackers.at(other).data_requests == scheduler.trackers.at(
            other,
        ).data_requests,
{
    lemma_set_shape(scheduler.trackers, id, scheduler.trackers.at(id).pause(reason));
}

/// When connections have their turn, each keeps what it asked for: as a request
/// that is served again, or as one that waits. This holds whatever filters are
/// looked at.
pub proof fn law_requests_survive_consuming(
    state: RouterState,
    now: Instant,
    other: ConnectionId,
    kind: spec_fn(Seq<char>) -> bool,
)
    requires
        state.inv(),
        state.live(other),
    ensures
        state.consumed(now).asked(other, kind) == state.asked(other, kind),
{
    if state.scheduler.readyqueue.len() > 0 {
        let id = state.scheduler.readyqueue[0];
        lemma_polled(state.datalog.native, state.scheduler);
        state.lemma_with_scheduler(state.scheduler.polled());
        let polled = RouterState { scheduler: state.scheduler.polled(), ..state };
        assert(state.connections.has(other));
        assert(state.scheduler.trackers.has(other));
        if state.live(id) {
            assert(state.connections.has(id));
            assert(state.scheduler.trackers.has(id));
            lemma_set_shape(
                state.scheduler.trackers,
                id,
                TrackerState { data_requests: Seq::empty(), ..state.scheduler.trackers.at(id) },
            );
            polled.lemma_acked(id);
            let acks = polled.ackslog.at(id);
            lemma_set_shape(polled.obufs, id, with_acks(polled.obufs.at(id), acks.committed));
            lemma_served_asked(
                polled.acked(id),
                id,
                state.scheduler.polled_requests(),
                MAX_SCHEDULE_ITERATIONS as nat,
                now,
                other,
                kind,
            );
        } else {
            assert(!state.connections.has(id));
            assert(!state.scheduler.trackers.has(id));
        }
    }
}

/// A connection that is prepared for a filter is listed under it and subscribed
/// to it. Where the filter is new to it, one request is put in for it, and its
/// turn comes; where it is not, no request is added or changed, whatever the
/// quality of service and the cursor.
pub proof fn law_filter_is_prepared(
    state: RouterState,
    id: ConnectionId,
    cursor: Offset,
    filter_idx: usize,
    filter: String,
    qos: u8,
    other: ConnectionId,
    kind: spec_fn(Seq<char>) -> bool,
)
    requires
        state.inv(),
        state.live(id),
        state.live(other),
    ensures
        ({
            let after = state.prepared(id, cursor, filter_idx, filter, qos);
            let old = state.connections.at(id).subscriptions;
            let request = DataRequest {
                filter,
                filter_idx,
                qos,
                cursor,
                read_count: 0,
                max_count: 100,
            };
            &&& lists(after.subscription_map, filter@, id)
            &&& after.connections.at(id).subscriptions == old.insert(filter@)
            &&& !old.contains(filter@) ==> {
                &&& after.scheduler == state.scheduler.track(id, request).reschedule(
                    id,
                    ScheduleReason::NewFilter,
                )
                &&& after.scheduler.trackers.at(id).data_requests == state.scheduler.trackers.at(
                    id,
                ).data_requests.push(request)
            }
            &&& old.contains(filter@) ==> after.scheduler == state.scheduler
            &&& after.datalog == state.datalog
            &&& after.notifications == state.notifications
            &&& after.asked(other, kind) == state.asked(other, kind) + if other == id
                && !old.contains(filter@) && kind(filter@) {
                1nat
            } else {
                0nat
            }
        }),
{
    assert(state.connections.has(id) && state.connections.has(other));
    assert(state.scheduler.trackers.has(id) && state.scheduler.trackers.has(other));
    let connection = state.connections.at(id);
    lemma_set_shape(
        state.connections,
        id,
        ConnectionState { subscriptions: connection.subscriptions.insert(filter@), ..connection },
    );
    let request = DataRequest { filter, filter_idx, qos, cursor, read_count: 0, max_count: 100 };
    let tracker = state.scheduler.trackers.at(id);
    lemma_set_shape(state.scheduler.trackers, id, tracker.register(request));
    lemma_asking_push(tracker.data_requests, request, kind);
    let more = state.scheduler.track(id, request);
    lemma_set_shape(
        more.trackers,
        id,
        TrackerState { status: Status::Ready, ..more.trackers.at(id) },
    );
}

proof fn lemma_subscribed_asked(
    state: RouterState,
    id: ConnectionId,
    filter: Filter,
    other: ConnectionId,
    kind: spec_fn(Seq<char>) -> bool,
)
    requires
        state.inv(),
        state.live(id),
        state.live(other),
        !(filter.qos is ExactlyOnce),
        state.datalog.ensure_log(filter.path@).native.len() <= usize::MAX,
    ensures
        state.subscribed(id, filter).asked(other, kind) == state.asked(other, kind) + if other == id
            && !state.connections.at(id).subscriptions.contains(filter.path@) && kind(
            filter.path@,
        ) {
            1nat
        } else {
            0nat
        },
{
    let path = filter.path@;
    state.lemma_ensured(path);
    let opened = RouterState { datalog: state.datalog.ensure_log(path), ..state };
    lemma_parked_opened(state.datalog.native, path, state.datalog.config, other);
    let idx = log_index(state.datalog.native, path);
    let cursor = state.datalog.next_offset(path);
    let qos = filter.qos.spec_level();
    opened.lemma_prepared(id, cursor, idx, filter.path, qos);
    law_filter_is_prepared(opened, id, cursor, idx, filter.path, qos, other, kind);
    let prepared = opened.prepared(id, cursor, idx, filter.path, qos);
    let items = prepared.datalog.replay_items(path);
    prepared.lemma_replay_items(path);
    let woken = prepared.datalog.woken(items);
    lemma_append_items_asking(prepared.datalog, items, other, kind);
    lemma_requests_of_add(prepared.notifications, woken, other);
    lemma_asking_add(
        requests_of(prepared.notifications, other),
        requests_of(woken, other),
        kind,
    );
}

/// A connection that subscribes is listed under the filter, and is given all
/// that comes in from then on. Where the filter is new to it, it has one request
/// more, for that filter; nobody has any other request more or less.
pub proof fn law_subscription(
    state: RouterState,
    id: ConnectionId,
    filter: Filter,
    other: ConnectionId,
    kind: spec_fn(Seq<char>) -> bool,
)
    requires
        state.inv(),
        state.live(id),
        !(filter.qos is ExactlyOnce),
        state.datalog.ensure_log(filter.path@).native.len() <= usize::MAX,
    ensures
        ({
            let after = state.subscribed(id, filter);
            let request = DataRequest {
                filter: filter.path,
                filter_idx: log_index(state.datalog.native, filter.path@),
                qos: filter.qos.spec_level(),
                cursor: state.datalog.next_offset(filter.path@),
                read_count: 0,
                max_count: 100,
            };
            &&& lists(after.subscription_map, filter.path@, id)
            &&& after.connections.at(id).subscriptions == state.connections.at(
                id,
            ).subscriptions.insert(filter.path@)
            &&& after.scheduler.trackers.at(id).data_requests == if state.connections.at(
                id,
            ).subscriptions.contains(filter.path@) {
                state.scheduler.trackers.at(id).data_requests
            } else {
                state.scheduler.trackers.at(id).data_requests.push(request)
            }
            &&& state.live(other) ==> after.asked(other, kind) == state.asked(other, kind)
                + if other == id && !state.connections.at(id).subscriptions.contains(
                filter.path@,
            ) && kind(filter.path@) {
                1nat
            } else {
                0nat
            }
        }),
{
    assert(state.connections.has(id));
    assert(state.scheduler.trackers.has(id));
    if state.live(other) {
        lemma_subscribed_asked(state, id, filter, other, kind);
    }
    let connection = state.connections.at(id);
    lemma_set_shape(
        state.connections,
        id,
        ConnectionState {
            subscriptions: connection.subscriptions.insert(filter.path@),
            ..connection
        },
    );
    let request = DataRequest {
        filter: filter.path,
        filter_idx: log_index(state.datalog.native, filter.path@),
        qos: filter.qos.spec_level(),
        cursor: state.datalog.next_offset(filter.path@),
        read_count: 0,
        max_count: 100,
    };
    let tracker = state.scheduler.trackers.at(id);
    lemma_set_shape(state.scheduler.trackers, id, tracker.register(request));
    let more = state.scheduler.track(id, request);
    lemma_set_shape(
        more.trackers,
        id,
        TrackerState { status: Status::Ready, ..more.trackers.at(id) },
    );
}

proof fn lemma_filtered_out(requests: Seq<DataRequest>, filter: Seq<char>)
    ensures
        forall|k: int|
            0 <= k < requests.filter(other_than(filter)).len() ==> (#[trigger] requests.filter(
                other_than(filter),
            )[k]).filter@ != filter,
    decreases requests.len(),
{
    reveal(Seq::filter);
    if requests.len() > 0 {
        lemma_filtered_out(requests.drop_last(), filter);
        let before = requests.drop_last().filter(other_than(filter));
        let all = requests.filter(other_than(filter));
        assert forall|k: int| 0 <= k < all.len() implies (#[trigger] all[k]).filter@ != filter by {
            if k < before.len() {
                assert(all[k] == before[k]);
            }
        }
    }
}

/// A connection that stops asking for a filter keeps its other requests, and so
/// do all others. For that filter it keeps what it is to be told of already.
proof fn lemma_unasked(
    state: RouterState,
    id: ConnectionId,
    filter: Seq<char>,
    other: ConnectionId,
    f: Seq<char>,
)
    requires
        state.inv(),
        state.live(id),
        state.live(other),
    ensures
        state.unasked(id, filter).asked(other, on(f)) == if other == id && f == filter {
            asking(requests_of(state.notifications, id), on(filter))
        } else {
            state.asked(other, on(f))
        },
{
    assert(state.connections.has(id) && state.connections.has(other));
    assert(state.scheduler.trackers.has(id) && state.scheduler.trackers.has(other));
    let tracker = state.scheduler.trackers.at(id);
    lemma_set_shape(state.scheduler.trackers, id, tracker.unregister(filter));
    lemma_asking_without(tracker.data_requests, filter, f);
    let native = state.datalog.native;
    let after = state.unasked(id, filter).datalog.native;
    lemma_find_log(native, filter);
    if let Some(idx) = find_log(native, filter) {
        let log = native[idx as int];
        assert(at_home(log));
        lemma_requests_of_without(log.waiters, id, other);
        lemma_parked_update(native, idx as int, log.without(id), other, on(f));
        if other == id && f != filter {
            lemma_requests_at_home(log.waiters, log.filter, id);
            lemma_asking_elsewhere(requests_of(log.waiters, id), log.filter, f);
        }
        assert forall|i: int| 0 <= i < after.len() implies at_home(#[trigger] after[i]) by {
            assert(at_home(native[i]));
            if i == idx {
                lemma_waiters_without(log.waiters, id);
                let left = after[i].waiters;
                assert forall|k: int| 0 <= k < left.len() implies (#[trigger] left[k]).1.filter@
                    == after[i].filter by {
                    assert(log.waiters.contains(left[k]));
                }
            }
        }
        assert forall|i: int| 0 <= i < after.len() implies (#[trigger] after[i]).filter != filter
            || requests_of(after[i].waiters, id).len() == 0 by {
            lemma_requests_of_without(log.waiters, id, id);
            if i < idx {
                assert(native[i].filter != native[idx as int].filter);
            } else if idx < i {
                assert(native[idx as int].filter != native[i].filter);
            }
        }
        lemma_parked_elsewhere(after, id, filter);
    } else {
        assert forall|i: int| 0 <= i < native.len() implies at_home(#[trigger] native[i]) by {}
        lemma_parked_elsewhere(native, id, filter);
    }
}

/// A connection that unsubscribes is no longer listed under the filter, asks
/// for no more of it, does not wait for it, and gets its ack. Of what has come in
/// before it is still told. No other request is lost.
pub proof fn law_unsubscription(
    state: RouterState,
    id: ConnectionId,
    filter: Seq<char>,
    pkid: u16,
    i: int,
    k: int,
    other: ConnectionId,
    f: Seq<char>,
)
    requires
        state.inv(),
        state.live(id),
        lists(state.subscription_map, filter, id),
    ensures
        ({
            let after = state.unsubscribed(id, filter, pkid);
            let requests = after.scheduler.trackers.at(id).data_requests;
            let native = after.datalog.native;
            &&& !lists(after.subscription_map, filter, id)
            &&& !after.connections.at(id).subscriptions.contains(filter)
            &&& 0 <= k < requests.len() ==> requests[k].filter@ != filter
            &&& 0 <= i < native.len() && native[i].filter == filter && 0 <= k
                < native[i].waiters.len() ==> native[i].waiters[k].0 != id
            &&& after.notifications == state.notifications
            &&& after.asked(id, on(filter)) == asking(
                requests_of(state.notifications, id),
                on(filter),
            )
            &&& state.live(other) && (other != id || f != filter) ==> after.asked(other, on(f))
                == state.asked(other, on(f))
            &&& after.ackslog.at(id).committed == state.ackslog.at(id).committed.push(
                AckView::UnsubAck(pkid, Seq::empty()),
            )
        }),
{
    let after = state.unsubscribed(id, filter, pkid);
    assert(state.connections.has(id));
    assert(state.scheduler.trackers.has(id));
    assert(state.ackslog.has(id));
    let connection = state.connections.at(id);
    assert(subscribes(state.connections, filter, id));
    lemma_unasked(state, id, filter, id, filter);
    if state.live(other) {
        lemma_unasked(state, id, filter, other, f);
    }
    lemma_set_shape(
        state.connections,
        id,
        ConnectionState { subscriptions: connection.subscriptions.remove(filter), ..connection },
    );
    let tracker = state.scheduler.trackers.at(id);
    lemma_set_shape(state.scheduler.trackers, id, tracker.unregister(filter));
    lemma_filtered_out(tracker.data_requests, filter);
    let acks = state.ackslog.at(id);
    lemma_set_shape(
        state.ackslog,
        id,
        acks.commit(AckView::UnsubAck(pkid, Seq::empty())),
    );
    lemma_find_log(state.datalog.native, filter);
    let native = after.datalog.native;
    if 0 <= i < native.len() && native[i].filter == filter && 0 <= k < native[i].waiters.len() {
        let idx = find_log(state.datalog.native, filter)->0;
        assert(state.datalog.native[i].filter == filter);
        assert(i == idx) by {
            if i < idx {
                assert(state.datalog.native[i].filter != state.datalog.native[idx as int].filter);
            } else if idx < i {
                assert(state.datalog.native[idx as int].filter != state.datalog.native[i].filter);
            }
        }
        lemma_waiters_without(state.datalog.native[i].waiters, id);
    }
}

/// A publish with the strongest acks is refused: the connection ends, and no
/// log changes.
pub proof fn law_exactly_once_is_refused(
    turn: Turn,
    id: ConnectionId,
    publish: Publish,
    props: Option<PublishProperties>,
    now: Instant,
)
    requires
        publish.qos is ExactlyOnce,
    ensures
        turn.publish(id, publish, props, now).disconnect,
        turn.publish(id, publish, props, now).stopped,
        turn.publish(id, publish, props, now).state == turn.state,
{
}

proof fn lemma_retained_without(retained: Seq<RetainedView>, topic: Seq<char>, one: RetainedView)
    ensures
        retained_without(retained, topic).contains(one) <==> retained.contains(one) && one.topic
            != topic,
    decreases retained.len(),
{
    if retained.len() > 0 {
        let shorter = retained.drop_last();
        let before = retained_without(shorter, topic);
        lemma_retained_without(shorter, topic, one);
        assert(shorter.push(retained.last()) =~= retained);
        lemma_push_contains(shorter, retained.last(), one);
        lemma_push_contains(before, retained.last(), one);
    }
}

/// Of the publishes on a topic that are to be retained only the last is kept,
/// and one without a payload clears it. Other topics keep theirs.
pub proof fn law_retained_is_the_last(
    datalog: DataLogState,
    topic: Seq<char>,
    publish: Publish,
    props: Option<PublishProperties>,
    one: RetainedView,
)
    ensures
        ({
            let after = after_retention(datalog, topic, publish, props);
            let empty = bytes_content(publish.payload).len() == 0;
            &&& one.topic != topic ==> after.retained.contains(one) == datalog.retained.contains(
                one,
            )
            &&& one.topic == topic && empty ==> !after.retained.contains(one)
            &&& one.topic == topic && !empty && publish.retain ==> after.retained.contains(one)
                == (one == RetainedView { topic, publish, props })
            &&& one.topic == topic && !empty && !publish.retain ==> after.retained.contains(one)
                == datalog.retained.contains(one)
        }),
{
    lemma_retained_without(datalog.retained, topic, one);
    lemma_push_contains(
        retained_without(datalog.retained, topic),
        RetainedView { topic, publish, props },
        one,
    );
}

proof fn lemma_replayed_contains(
    retained: Seq<RetainedView>,
    filter: Seq<char>,
    idx: usize,
    one: RetainedView,
)
    requires
        retained.contains(one),
        topic_matches(one.topic, filter),
    ensures
        replayed(retained, filter, idx).contains(
            (idx, LogEntry { publish: one.publish, expiry: None }),
        ),
    decreases retained.len(),
{
    let shorter = retained.drop_last();
    let entry = (idx, LogEntry { publish: one.publish, expiry: None });
    let before = replayed(shorter, filter, idx);
    assert(shorter.push(retained.last()) =~= retained);
    lemma_push_contains(shorter, retained.last(), one);
    if shorter.contains(one) {
        lemma_replayed_contains(shorter, filter, idx, one);
    }
    lemma_push_contains(
        before,
        (idx, LogEntry { publish: retained.last().publish, expiry: None }),
        entry,
    );
}

/// Who subscribes is given what was retained on the topics that the filter
/// selects.
pub proof fn law_retained_is_replayed(
    state: RouterState,
    id: ConnectionId,
    filter: Filter,
    one: RetainedView,
)
    requires
        state.inv(),
        state.live(id),
        !(filter.qos is ExactlyOnce),
        state.datalog.ensure_log(filter.path@).native.len() <= usize::MAX,
        state.datalog.retained.contains(one),
        topic_matches(one.topic, filter.path@),
    ensures
        ({
            let opened = state.datalog.ensure_log(filter.path@);
            let items = opened.replay_items(filter.path@);
            &&& state.subscribed(id, filter).datalog == opened.append_items(items)
            &&& items.contains(
                (
                    log_index(state.datalog.native, filter.path@),
                    LogEntry { publish: one.publish, expiry: None },
                ),
            )
        }),
{
    state.lemma_ensured(filter.path@);
    lemma_replayed_contains(
        state.datalog.retained,
        filter.path@,
        log_index(state.datalog.native, filter.path@),
        one,
    );
}

proof fn lemma_notified_contains(
    state: RouterState,
    notifications: Seq<(ConnectionId, DataRequest)>,
    id: ConnectionId,
    request: DataRequest,
)
    requires
        state.inv(),
        state.live(id),
        waiters_ok(state.datalog.native, state.obufs, notifications),
    ensures
        ({
            let before = state.scheduler.trackers.at(id);
            let after = notified(state.scheduler, notifications).trackers.at(id);
            &&& notified(state.scheduler, notifications).trackers.has(id)
            &&& notifications.contains((id, request)) || before.data_requests.contains(request)
                ==> after.data_requests.contains(request)
            &&& before.status is Ready ==> after.status is Ready
            &&& notifications.contains((id, request)) && before.status == Status::Paused(
                PauseReason::Caughtup,
            ) ==> after.status is Ready
            &&& after.status == before.status || after.status is Ready
        }),
    decreases notifications.len(),
{
    assert(state.connections.has(id));
    assert(state.scheduler.trackers.has(id));
    if notifications.len() > 0 {
        let shorter = notifications.drop_last();
        let last = notifications.last();
        assert forall|i: int| 0 <= i < shorter.len() implies state.obufs.has(
            (#[trigger] shorter[i]).0,
        ) && request_ok(state.datalog.native, shorter[i].1) by {
            assert(shorter[i] == notifications[i]);
        }
        assert(shorter.push(last) =~= notifications);
        lemma_push_contains(shorter, last, (id, request));
        lemma_notified_contains(state, shorter, id, request);
        let before = notified(state.scheduler, shorter);
        lemma_push_contains(before.trackers.at(id).data_requests, last.1, request);
        if before.trackers.has(last.0) {
            lemma_set_shape(
                before.trackers,
                last.0,
                before.trackers.at(last.0).register(last.1),
            );
        }
        let more = before.track(last.0, last.1);
        if more.trackers.has(last.0) {
            lemma_set_shape(
                more.trackers,
                last.0,
                TrackerState { status: Status::Ready, ..more.trackers.at(last.0) },
            );
        }
    }
}

/// Who waits for a filter is served again after a publish that the filter
/// selects: the request is back, and a connection that had caught up has its
/// turn coming.
pub proof fn law_publish_wakes_subscribers(
    state: RouterState,
    publisher: ConnectionId,
    publish: Publish,
    props: Option<PublishProperties>,
    now: Instant,
    i: int,
    k: int,
)
    requires
        state.inv(),
        state.published(publisher, publish, props, now).fits(),
        state.publish_outcome(publisher, publish, props, now).outcome is Ok,
        0 <= i < state.datalog.native.len(),
        topic_matches(
            decode_utf8(bytes_content(publish.topic)),
            state.datalog.native[i].filter,
        ),
        0 <= k < state.datalog.native[i].waiters.len(),
    ensures
        ({
            let waiter = state.datalog.native[i].waiters[k];
            let after = state.published(publisher, publish, props, now).settled();
            let tracker = after.scheduler.trackers.at(waiter.0);
            &&& tracker.data_requests.contains(waiter.1)
            &&& state.scheduler.trackers.at(waiter.0).status == Status::Paused(
                PauseReason::Caughtup,
            ) ==> tracker.status is Ready && after.scheduler.readyqueue.contains(waiter.0)
        }),
{
    let waiter = state.datalog.native[i].waiters[k];
    let published = state.published(publisher, publish, props, now);
    let topic = decode_utf8(bytes_content(publish.topic));
    law_no_ghosts(state, topic, waiter.0, i, k);
    lemma_matching(state.datalog.native, topic);
    assert(state.datalog.native[(i as usize) as int] == state.datalog.native[i]);
    assert(matching(state.datalog.native, topic).contains(i as usize));
    law_publish_reaches_its_logs(
        state.datalog,
        state.connections.at(publisher),
        publish,
        props,
        now,
        i,
        k,
    );
    state.lemma_published(publisher, publish, props, now);
    let woken = state.publish_outcome(publisher, publish, props, now).woken;
    assert(woken.contains(waiter));
    let j = choose|j: int| 0 <= j < woken.len() && woken[j] == waiter;
    assert(published.notifications[state.notifications.len() + j] == waiter);
    assert(published.notifications.contains((waiter.0, waiter.1)));
    lemma_notified_contains(published, published.notifications, waiter.0, waiter.1);
    published.lemma_settled();
    let after = published.settled();
    if after.scheduler.trackers.at(waiter.0).status is Ready {
        law_ready_is_queued(after, waiter.0);
    }
}

/// Publishes go to an outbox in order, behind all that waits there.
pub proof fn law_forwards_are_in_order(
    outgoing: OutgoingState,
    sent: Seq<Forward>,
    qos: u8,
    filter_idx: usize,
    i: int,
)
    ensures
        ({
            let after = outgoing.push_forwards(sent, qos, filter_idx);
            let n = outgoing.buffer.len() as int;
            let m = outgoing.inflight.len() as int;
            &&& after.buffer.len() == n + sent.len()
            &&& 0 <= i < n ==> after.buffer[i] == outgoing.buffer[i]
            &&& 0 <= i < sent.len() ==> {
                &&& after.buffer[n + i] matches NotificationView::Forward(one)
                &&& one.cursor == sent[i].cursor
                &&& one.publish == Publish { pkid: one.publish.pkid, ..sent[i].publish }
                &&& qos == 0 ==> one == sent[i]
                &&& qos != 0 ==> after.inflight[m + i] == (
                    one.publish.pkid,
                    filter_idx,
                    sent[i].cursor,
                )
            }
        }),
    decreases sent.len(),
{
    outgoing.lemma_push_forwards(sent, qos, filter_idx);
    if sent.len() > 0 {
        outgoing.lemma_push_forwards(sent.drop_last(), qos, filter_idx);
        law_forwards_are_in_order(outgoing, sent.drop_last(), qos, filter_idx, i);
    }
}

/// Who has caught up with a log gets the next publish of the log as it was sent,
/// at the quality of service that was subscribed to.
pub proof fn law_subscriber_gets_the_next_publish(
    datalog: DataLogState,
    alertlog: AlertLogState,
    outgoing: OutgoingState,
    request: DataRequest,
    entry: LogEntry,
    now: Instant,
)
    requires
        datalog.wf(),
        request_ok(datalog.native, request),
        request.cursor == datalog.native[request.filter_idx as int].log.next_offset(),
        datalog.native[request.filter_idx as int].log.end() < u64::MAX,
        !entry.spec_expired(now),
        request.qos == 0 ==> datalog.config.max_read_len > 0,
        request.qos == 1 ==> outgoing.inflight.len() < MAX_INFLIGHT,
    ensures
        ({
            let after = datalog.append(request.filter_idx, entry);
            let out = serve(request, after, outgoing, alertlog, now);
            let n = outgoing.buffer.len() as int;
            &&& out.outgoing.buffer.len() > n
            &&& out.outgoing.buffer[n] matches NotificationView::Forward(one)
            &&& one.publish == Publish {
                qos: spec_qos(request.qos)->0,
                pkid: one.publish.pkid,
                ..entry.publish
            }
            &&& out.request.cursor == after.native[request.filter_idx as int].log.next_offset()
        }),
{
    let idx = request.filter_idx as int;
    let before = datalog.native[idx].log;
    let after = datalog.append(request.filter_idx, entry);
    let log = after.native[idx].log;
    let most = read_len(request, after, outgoing);
    law_append_is_read_back(before, entry, LogEntry::weight(entry), u64::MAX);
    before.lemma_append(entry, LogEntry::weight(entry));
    let all = log.read(request.cursor, u64::MAX);
    assert(all.skip(1) =~= Seq::<(LogEntry, Offset)>::empty());
    let len = span(log, request.cursor, most, now);
    assert(len == 1) by {
        reveal_with_fuel(reach, 2);
    }
    lemma_span(log, request.cursor, most, now);
    let read = log.read(request.cursor, len);
    assert(read =~= all);
    assert(read.drop_last() =~= Seq::<(LogEntry, Offset)>::empty());
    assert(read.last() == (entry, log.place(before.end())));
    assert(deliverable(read.drop_last(), now) =~= Seq::<(Publish, Offset)>::empty());
    let sent = deliverable(read, now);
    assert(sent =~= seq![(entry.publish, log.place(before.end()))]);
    law_forwards_are_in_order(
        outgoing,
        forwards(sent, request.qos),
        request.qos,
        request.filter_idx,
        0,
    );
    log.lemma_begin_end();
    assert(log.read_count(request.cursor, len) == 1);
    let last = log.segments.len() - 1;
    log.lemma_locate(log.end(), last);
    assert(log.place(log.end()) == log.next_offset());
}

/// A request that has caught up with its filter leaves nothing unread: the next
/// read starts at the end of the log, and every publish from its cursor on that
/// has not expired went to the outbox, in order. One that has not caught up sent
/// something, unless nothing may be read at all.
pub proof fn law_caught_up_leaves_nothing_unread(
    datalog: DataLogState,
    alertlog: AlertLogState,
    outgoing: OutgoingState,
    request: DataRequest,
    now: Instant,
    i: int,
)
    requires
        datalog.wf(),
        request.filter_idx < datalog.native.len(),
    ensures
        ({
            let log = datalog.native[request.filter_idx as int].log;
            let out = serve(request, datalog, outgoing, alertlog, now);
            let unread = deliverable(log.read(request.cursor, u64::MAX), now);
            let n = outgoing.buffer.len() as int;
            &&& out.status is FilterCaughtup ==> {
                &&& log.first_read(out.request.cursor) == log.end()
                &&& out.outgoing.buffer.len() == n + unread.len()
                &&& 0 <= i < n ==> out.outgoing.buffer[i] == outgoing.buffer[i]
                &&& 0 <= i < unread.len() ==> {
                    &&& out.outgoing.buffer[n + i] matches NotificationView::Forward(one)
                    &&& one.cursor == unread[i].1
                    &&& one.publish == Publish {
                        qos: spec_qos(request.qos)->0,
                        pkid: one.publish.pkid,
                        ..unread[i].0
                    }
                }
            }
            &&& out.status is PartialRead && datalog.config.max_read_len > 0
                ==> out.outgoing.buffer.len() > n
        }),
{
    let log = datalog.native[request.filter_idx as int].log;
    let most = read_len(request, datalog, outgoing);
    let len = span(log, request.cursor, most, now);
    let read = log.read(request.cursor, len);
    let sent = deliverable(read, now);
    lemma_span(log, request.cursor, most, now);
    log.lemma_begin_end();
    law_forwards_are_in_order(
        outgoing,
        forwards(sent, request.qos),
        request.qos,
        request.filter_idx,
        i,
    );
    log.lemma_read_from(log.first_read(request.cursor) + len);
    if log.read_position(request.cursor, len) is Done {
        assert(read =~= log.read(request.cursor, u64::MAX));
    }
}

/// Of what is read, all that has not expired is delivered, and nothing else.
pub proof fn law_expired_is_not_delivered(
    read: Seq<(LogEntry, Offset)>,
    now: Instant,
    publish: Publish,
    offset: Offset,
)
    ensures
        deliverable(read, now).contains((publish, offset)) <==> exists|i: int|
            0 <= i < read.len() && (#[trigger] read[i]).0.publish == publish && read[i].1 == offset
                && !read[i].0.spec_expired(now),
    decreases read.len(),
{
    if read.len() > 0 {
        let shorter = read.drop_last();
        let last = read.last();
        law_expired_is_not_delivered(shorter, now, publish, offset);
        lemma_push_contains(deliverable(shorter, now), (last.0.publish, last.1), (publish, offset));
        if deliverable(shorter, now).contains((publish, offset)) {
            let i = choose|i: int|
                0 <= i < shorter.len() && (#[trigger] shorter[i]).0.publish == publish
                    && shorter[i].1 == offset && !shorter[i].0.spec_expired(now);
            assert(read[i] == shorter[i]);
        }
        assert(read[read.len() - 1] == last);
        if exists|i: int|
            0 <= i < read.len() && (#[trigger] read[i]).0.publish == publish && read[i].1 == offset
                && !read[i].0.spec_expired(now) {
            let i = choose|i: int|
                0 <= i < read.len() && (#[trigger] read[i]).0.publish == publish && read[i].1
                    == offset && !read[i].0.spec_expired(now);
            if i < shorter.len() {
                assert(shorter[i] == read[i]);
            }
        }
    }
}

/// A connection that is ready is not queued again.
pub proof fn law_ready_is_not_queued_twice(
    scheduler: SchedulerState,
    id: ConnectionId,
    reason: ScheduleReason,
)
    requires
        scheduler.trackers.has(id),
        scheduler.trackers.at(id).status is Ready,
    ensures
        scheduler.reschedule(id, reason) == scheduler,
{
}

/// A client that connects again takes the place of its older connection.
pub proof fn law_newcomer_replaces_older(
    state: RouterState,
    connection: ConnectionState,
    incoming: IncomingState,
    outgoing: OutgoingState,
    moment: Moment,
)
    requires
        state.inv(),
        state.notifications.len() == 0,
        clientid_valid(outgoing.client_id),
        state.connection_map.contains_key(outgoing.client_id),
        state.without_duplicate(outgoing.client_id, moment).fits(),
    ensures
        ({
            let after = state.connected(connection, incoming, outgoing, moment);
            let id = after.connection_map[outgoing.client_id];
            &&& after.connection_map.contains_key(outgoing.client_id)
            &&& after.live(id)
            &&& after.obufs.at(id) == outgoing
            &&& after.connections.count() == state.connections.count()
        }),
{
    let older = state.connection_map[outgoing.client_id];
    assert(state.live(older));
    let cleared = state.without_duplicate(outgoing.client_id, moment);
    state.lemma_without_duplicate(outgoing.client_id, moment);
    state.lemma_leaving(older, true, moment.now);
    let leaving = state.leaving(older, true, moment.now);
    leaving.lemma_room_after(older, moment.time@);
    assert(leaving.connections.has(older));
    lemma_remove_wf(leaving.connections, older);
    assert(state.connections.has(older));
    assert(leaving.connections.count() == state.connections.count()) by {
        lemma_set_shape(
            state.connections,
            older,
            ConnectionState { last_will: None, ..state.connections.at(older) },
        );
    }
    law_admitted_connection(cleared, connection, incoming, outgoing, moment);
}

/// Where tenants are held to their prefixes, what a client of a tenant publishes
/// and subscribes to starts with the prefix of the tenant.
pub proof fn law_tenants_are_kept_apart(
    datalog: DataLogState,
    connection: ConnectionState,
    publish: Publish,
    props: Option<PublishProperties>,
    now: Instant,
    filter: Filter,
)
    requires
        datalog.config.validate_tenant_prefix,
        connection.tenant_prefix is Some,
    ensures
        append_publish(datalog, connection, publish, props, now).outcome is Ok
            ==> connection.tenant_prefix->0@.is_prefix_of(
            decode_utf8(bytes_content(publish.topic)),
        ),
        subscription_verdict(connection, true, filter) is Ok
            ==> connection.tenant_prefix->0@.is_prefix_of(filter.path@),
{
}

/// What becomes of a round after some events were taken in.
pub open spec fn after_receipts(progress: Progress, n: nat) -> Progress
    decreases n,
{
    if n == 0 {
        progress
    } else {
        after_receipt(after_receipts(progress, (n - 1) as nat))
    }
}

/// A round takes in as many events as it may, and then ends.
pub proof fn law_round_is_bounded(left: usize, n: nat)
    requires
        n <= left,
        left > 0,
    ensures
        after_receipts(Progress::Polling(left), n) == if n < left {
            Progress::Polling((left - n) as usize)
        } else {
            Progress::Done
        },
        after_receipts(Progress::Waiting, 1) == Progress::Polling(MAX_POLLS),
    decreases n,
{
    reveal_with_fuel(after_receipts, 2);
    if n > 0 {
        law_round_is_bounded(left, (n - 1) as nat);
    }
}

/// What others ask for is not lost when a connection ends.
proof fn lemma_disconnected_keeps_requests(
    state: RouterState,
    id: ConnectionId,
    execute_will: bool,
    moment: Moment,
    other: ConnectionId,
    request: DataRequest,
)
    requires
        state.inv(),
        state.notifications.len() == 0,
        state.disconnected(id, execute_will, moment).fits(),
        state.live(other),
        other != id,
        state.scheduler.trackers.at(other).data_requests.contains(request),
    ensures
        state.disconnected(id, execute_will, moment).scheduler.trackers.at(
            other,
        ).data_requests.contains(request),
{
    if state.live(id) {
        let leaving = state.leaving(id, execute_will, moment.now);
        state.lemma_leaving(id, execute_will, moment.now);
        assert(state.connections.has(other));
        assert(state.scheduler.trackers.has(other));
        let alerted = state.with_alert(AlertView::Disconnect(state.obufs.at(id).client_id));
        state.lemma_with_alert(AlertView::Disconnect(state.obufs.at(id).client_id));
        if execute_will {
            if let Some(will) = alerted.connections.at(id).last_will {
                let given = ConnectionState { last_will: None, ..alerted.connections.at(id) };
                alerted.lemma_with_connection(id, given);
                let taken = RouterState {
                    connections: alerted.connections.set(id, given),
                    ..alerted
                };
                taken.lemma_published(id, will_publish(will), None, moment.now);
                let published = taken.published(id, will_publish(will), None, moment.now);
                lemma_notified_contains(published, published.notifications, other, request);
            }
        }
        assert(leaving.scheduler.trackers.at(other).data_requests.contains(request));
        assert(leaving.connections.has(other));
        assert(leaving.scheduler.trackers.has(other));
        assert(leaving.connections.has(id));
        assert(leaving.scheduler.trackers.has(id));
        lemma_remove_shape(leaving.scheduler.trackers, leaving.scheduler.trackers, id);
    }
}

/// A connection that ends in the middle of its packets does not keep what came
/// before from those who waited for it.
pub proof fn law_data_before_the_end_is_passed_on(
    turn: Turn,
    id: ConnectionId,
    moment: Moment,
    other: ConnectionId,
    request: DataRequest,
)
    requires
        turn.ok(id),
        turn.finish(id, moment).fits(),
        turn.state.notifications.contains((other, request)),
        other != id,
    ensures
        turn.finish(id, moment).live(other),
        turn.finish(id, moment).scheduler.trackers.at(other).data_requests.contains(request),
{
    let notifications = turn.state.notifications;
    let k = choose|k: int| 0 <= k < notifications.len() && notifications[k] == (other, request);
    assert(turn.state.obufs.has(notifications[k].0));
    let acked = if turn.force_ack {
        turn.state.rescheduled(id, ScheduleReason::FreshData)
    } else {
        turn.state
    };
    turn.state.lemma_rescheduled(id, ScheduleReason::FreshData);
    let told = acked.settled();
    acked.lemma_settled();
    lemma_notified_contains(acked, acked.notifications, other, request);
    if turn.disconnect {
        told.lemma_disconnected(id, turn.execute_will, moment);
        lemma_disconnected_keeps_requests(
            told,
            id,
            turn.execute_will,
            moment,
            other,
            request,
        );
        assert(told.live(other));
        assert(told.disconnected(id, turn.execute_will, moment).live(other));
    }
}

} // verus!
