//! What becomes of a client that goes away, and of one that comes back.
use super::alertlog::{AlertLogState, AlertView};
use super::commit::{after_retention, append_publish, publish_expiry};
use super::datalog::{
    deliverable, lemma_deliverable_add, lemma_span, parked, span, spread, DataLogState, LogEntry,
    RetainedView,
};
use super::delivery::{read_len, serve};
use super::graveyard::{retrieved, SavedStateView};
use super::invariants::{lemma_insert_shape, lemma_remove_shape, lemma_set_shape};
use super::iobufs::{first_unacked, IncomingState, OutgoingState};
use super::laws::{
    law_no_ghosts, law_publish_reaches_its_logs, law_publish_wakes_subscribers,
    law_requests_survive_publish, law_requests_survive_settling, law_retained_is_the_last,
    law_session_is_resumed, lemma_leaving_connection,
};
use super::logs::{lemma_matching, matching, requests_of};
use super::messages::{record_event, ConnectionId, ConnectionState, DataRequest, MAX_EVENTS};
use super::requests::{
    lemma_asking_add, lemma_asking_same, lemma_parked_same, lemma_requests_of_without,
};
use super::scheduler::{PauseReason, Status, TrackerState};
use super::single::{lemma_disconnected_grows, lemma_unknown};
use super::state::{
    all_rewound, connection_event, disconnection_event, lists, will_publish, RouterState, Turn,
};
use super::turns::{
    fresh, law_deliverable_is_fresh, law_request_is_served, placed, same_logs, unread,
};
use super::validate::clientid_valid;
use crate::clock::{instant_nanos, Moment};
use crate::payload::bytes_content;
use crate::protocol::{Packet, Publish, PublishProperties};
use crate::segments::log::{Entry, LogState, Offset};
use crate::topic::topic_matches;
use std::time::Instant;
use vstd::prelude::*;
use vstd::utf8::{decode_utf8, valid_utf8};

verus! {

/// Publishes of a filter are sent again from the first one on that is not acked;
/// where all are acked nothing is.
pub proof fn law_retransmission_starts_at_the_first_unacked(
    inflight: Seq<(u16, usize, Offset)>,
    filter_idx: usize,
    i: int,
)
    ensures
        0 <= i < inflight.len() && inflight[i].1 == filter_idx && (forall|j: int|
            0 <= j < i ==> (#[trigger] inflight[j]).1 != filter_idx) ==> first_unacked(
            inflight,
            filter_idx,
        ) == Some(inflight[i].2),
        first_unacked(inflight, filter_idx) is None <==> (forall|j: int|
            0 <= j < inflight.len() ==> (#[trigger] inflight[j]).1 != filter_idx),
    decreases inflight.len(),
{
    if inflight.len() > 0 {
        let shorter = inflight.drop_last();
        let last = inflight.len() - 1;
        law_retransmission_starts_at_the_first_unacked(shorter, filter_idx, i);
        assert(inflight[last] == inflight.last());
        assert forall|j: int| 0 <= j < shorter.len() implies shorter[j]
            == #[trigger] inflight[j] by {}
        if first_unacked(shorter, filter_idx) is None {
            assert forall|j: int| 0 <= j < last implies (#[trigger] inflight[j]).1
                != filter_idx by {
                assert(shorter[j].1 != filter_idx);
            }
        } else {
            let h = choose|h: int| 0 <= h < shorter.len() && shorter[h].1 == filter_idx;
            assert(inflight[h].1 == filter_idx);
        }
        if 0 <= i < shorter.len() && inflight[i].1 == filter_idx && (forall|j: int|
            0 <= j < i ==> (#[trigger] inflight[j]).1 != filter_idx) {
            assert forall|j: int| 0 <= j < i implies (#[trigger] shorter[j]).1 != filter_idx by {
                assert(inflight[j].1 != filter_idx);
            }
        }
    }
}

/// Whether what was sent of a filter and is not acked was sent in the order of
/// the log, and from before some number.
pub open spec fn in_order(
    inflight: Seq<(u16, usize, Offset)>,
    filter_idx: usize,
    end: int,
) -> bool {
    &&& forall|i: int, j: int|
        0 <= i < j < inflight.len() && (#[trigger] inflight[i]).1 == filter_idx && (
        #[trigger] inflight[j]).1 == filter_idx ==> inflight[i].2.1 < inflight[j].2.1
    &&& forall|i: int|
        0 <= i < inflight.len() && (#[trigger] inflight[i]).1 == filter_idx ==> inflight[i].2.1
            < end
}

proof fn lemma_deliverable_ordered(read: Seq<(LogEntry, Offset)>, now: Instant, first: int)
    requires
        forall|k: int| 0 <= k < read.len() ==> (#[trigger] read[k]).1.1 == first + k,
    ensures
        ({
            let sent = deliverable(read, now);
            &&& forall|i: int|
                0 <= i < sent.len() ==> first <= (#[trigger] sent[i]).1.1 < first + read.len()
            &&& forall|i: int, j: int|
                0 <= i < j < sent.len() ==> (#[trigger] sent[i]).1.1 < (#[trigger] sent[j]).1.1
        }),
    decreases read.len(),
{
    if read.len() > 0 {
        let shorter = read.drop_last();
        assert forall|k: int| 0 <= k < shorter.len() implies (#[trigger] shorter[k]).1.1 == first
            + k by {
            assert(shorter[k] == read[k]);
        }
        lemma_deliverable_ordered(shorter, now, first);
        assert(read[read.len() - 1].1.1 == first + read.len() - 1);
        let before = deliverable(shorter, now);
        let sent = deliverable(read, now);
        assert forall|i: int| 0 <= i < before.len() implies #[trigger] sent[i] == before[i] by {}
        assert forall|i: int| 0 <= i < sent.len() implies first <= (#[trigger] sent[i]).1.1 < first
            + read.len() by {
            if i < before.len() {
                assert(before[i].1.1 < first + shorter.len());
            }
        }
        assert forall|i: int, j: int| 0 <= i < j < sent.len() implies (#[trigger] sent[i]).1.1 < (
        #[trigger] sent[j]).1.1 by {
            if j < before.len() {
                assert(before[i].1.1 < before[j].1.1);
            } else {
                assert(before[i].1.1 < first + shorter.len());
            }
        }
    }
}

/// What is sent with acks is sent in the order of the log, and an ack that is
/// taken leaves that so. What was sent lies before where the request reads on.
pub proof fn law_sent_is_in_order(
    datalog: DataLogState,
    alertlog: AlertLogState,
    outgoing: OutgoingState,
    request: DataRequest,
    now: Instant,
)
    requires
        datalog.wf(),
        request.filter_idx < datalog.native.len(),
        request.qos <= 1,
        in_order(
            outgoing.inflight,
            request.filter_idx,
            datalog.native[request.filter_idx as int].log.first_read(request.cursor),
        ),
    ensures
        ({
            let out = serve(request, datalog, outgoing, alertlog, now);
            let log = datalog.native[request.filter_idx as int].log;
            &&& in_order(
                out.outgoing.inflight,
                request.filter_idx,
                log.first_read(out.request.cursor),
            )
            &&& in_order(
                out.outgoing.acked().inflight,
                request.filter_idx,
                log.first_read(out.request.cursor),
            )
        }),
{
    let log = datalog.native[request.filter_idx as int].log;
    let out = serve(request, datalog, outgoing, alertlog, now);
    let f = request.filter_idx;
    let most = read_len(request, datalog, outgoing);
    let len = span(log, request.cursor, most, now);
    let first = log.first_read(request.cursor);
    log.lemma_begin_end();
    lemma_span(log, request.cursor, most, now);
    let read = log.read(request.cursor, len);
    let all = unread(datalog.native, request, now);
    let k = outgoing.inflight.len() as int;
    let after = out.outgoing.inflight;
    law_request_is_served(datalog, alertlog, outgoing, request, now, 0);
    if !(out.status is InflightFull) {
        assert forall|h: int| 0 <= h < read.len() implies (#[trigger] read[h]).1.1 == first
            + h by {
            log.lemma_read_from(first + h);
        }
        log.lemma_read_from(first + len);
        lemma_deliverable_ordered(read, now, first);
        let sent = deliverable(read, now);
        lemma_sent_is_first(log, request.cursor, len, now);
        assert(sent.len() == all.len() - unread(datalog.native, out.request, now).len());
        assert forall|i: int| 0 <= i < after.len() implies #[trigger] after[i] == (if i < k {
            outgoing.inflight[i]
        } else {
            (after[i].0, f, sent[i - k].1)
        }) by {
            law_request_is_served(datalog, alertlog, outgoing, request, now, i);
            law_request_is_served(datalog, alertlog, outgoing, request, now, i - k);
        }
        assert(in_order(after, f, first + len)) by {
            assert forall|i: int, j: int|
                0 <= i < j < after.len() && (#[trigger] after[i]).1 == f && (
                #[trigger] after[j]).1 == f implies after[i].2.1 < after[j].2.1 by {
                if j < k {
                    assert(outgoing.inflight[i].2.1 < outgoing.inflight[j].2.1);
                } else if i < k {
                    assert(outgoing.inflight[i].2.1 < first);
                    assert(first <= sent[j - k].1.1);
                } else {
                    assert(sent[i - k].1.1 < sent[j - k].1.1);
                }
            }
            assert forall|i: int|
                0 <= i < after.len() && (#[trigger] after[i]).1 == f implies after[i].2.1 < first
                + len by {
                if i < k {
                    assert(outgoing.inflight[i].2.1 < first);
                } else {
                    assert(sent[i - k].1.1 < first + len);
                }
            }
        }
    }
    let less = out.outgoing.acked().inflight;
    let end = log.first_read(out.request.cursor);
    assert(in_order(after, f, end));
    if after.len() > 0 {
        assert forall|i: int| 0 <= i < less.len() implies #[trigger] less[i] == after[i + 1] by {}
    }
}

/// What is sent at once is the first of what is unread.
proof fn lemma_sent_is_first(log: LogState<LogEntry>, cursor: Offset, len: u64, now: Instant)
    requires
        log.wf(),
        len <= log.end() - log.first_read(cursor),
    ensures
        ({
            let sent = deliverable(log.read(cursor, len), now);
            let all = log.read(cursor, u64::MAX).filter(fresh(now)).map_values(
                placed(),
            );
            &&& sent.is_prefix_of(all)
            &&& log.read_position(cursor, len) is Done ==> sent == all
        }),
{
    log.lemma_begin_end();
    let all = log.read(cursor, u64::MAX);
    let read = log.read(cursor, len);
    let rest = all.skip(len as int);
    assert(all =~= read + rest);
    lemma_deliverable_add(read, rest, now);
    law_deliverable_is_fresh(all, now);
    let sent = deliverable(read, now);
    assert(sent =~= deliverable(all, now).take(sent.len() as int));
    if log.read_position(cursor, len) is Done {
        assert(read =~= all);
    }
}

/// A client whose session goes on finds each of its requests again, and no other.
/// Each reads on from the first publish of its filter that was sent and is not
/// acked, or from where it was where there is none. So where publishes were sent
/// in order, each of them that is not acked and still in the log is read again.
pub proof fn law_unacked_is_sent_again(
    state: RouterState,
    id: ConnectionId,
    execute_will: bool,
    left: Moment,
    connection: ConnectionState,
    incoming: IncomingState,
    outgoing: OutgoingState,
    back: Moment,
    k: int,
    i: int,
    end: int,
    kind: spec_fn(Seq<char>) -> bool,
)
    requires
        state.inv(),
        state.notifications.len() == 0,
        state.live(id),
        outgoing.client_id == state.obufs.at(id).client_id,
        clientid_valid(outgoing.client_id),
        state.disconnected(id, execute_will, left).fits(),
        !connection.clean,
        !state.connections.at(id).clean,
    ensures
        ({
            let gone = state.disconnected(id, execute_will, left);
            let leaving = state.leaving(id, execute_will, left.now);
            let new = gone.connections.next_key();
            let after = gone.connected(connection, incoming, outgoing, back);
            let old = leaving.scheduler.trackers.at(id).data_requests + parked(
                leaving.datalog.native,
                id,
            );
            let requests = after.scheduler.trackers.at(new).data_requests;
            let inflight = state.obufs.at(id).inflight;
            let f = old[k].filter_idx;
            let none = forall|j: int|
                0 <= j < inflight.len() ==> (#[trigger] inflight[j]).1 != f;
            let first = {
                &&& 0 <= i < inflight.len()
                &&& inflight[i].1 == f
                &&& forall|j: int| 0 <= j < i ==> (#[trigger] inflight[j]).1 != f
            };
            let log = after.datalog.native[f as int].log;
            &&& requests.len() == old.len()
            &&& after.asked(new, kind) == state.asked(id, kind)
            &&& 0 <= k < old.len() ==> {
                &&& requests[k] == DataRequest { cursor: requests[k].cursor, ..old[k] }
                &&& first ==> requests[k].cursor == inflight[i].2
                &&& none ==> requests[k].cursor == old[k].cursor
                &&& in_order(inflight, f, end) && 0 <= i < inflight.len() && inflight[i].1 == f
                    && log.begin() <= inflight[i].2.1 ==> log.first_read(requests[k].cursor)
                    <= inflight[i].2.1
            }
        }),
{
    let gone = state.disconnected(id, execute_will, left);
    let leaving = state.leaving(id, execute_will, left.now);
    let new = gone.connections.next_key();
    let after = gone.connected(connection, incoming, outgoing, back);
    law_session_is_resumed(
        state,
        id,
        execute_will,
        left,
        connection,
        incoming,
        outgoing,
        back,
        Seq::empty(),
    );
    let old = leaving.scheduler.trackers.at(id).data_requests + parked(leaving.datalog.native, id);
    let requests = after.scheduler.trackers.at(new).data_requests;
    let inflight = state.obufs.at(id).inflight;
    assert(requests == all_rewound(old, inflight));
    if 0 <= k < old.len() {
        let f = old[k].filter_idx;
        law_retransmission_starts_at_the_first_unacked(inflight, f, i);
        if 0 <= i < inflight.len() && inflight[i].1 == f {
            let h = lemma_first_of(inflight, f, i);
            law_retransmission_starts_at_the_first_unacked(inflight, f, h);
        }
    }
    lemma_leaving_asked(state, id, execute_will, left.now, kind);
    lemma_asking_add(
        leaving.scheduler.trackers.at(id).data_requests,
        parked(leaving.datalog.native, id),
        kind,
    );
    lemma_asking_same(requests, old, kind);
    state.lemma_leaving(id, execute_will, left.now);
    state.lemma_disconnected(id, execute_will, left);
    assert(!gone.live(new)) by {
        gone.lemma_same_keys();
        lemma_insert_shape(
            gone.connections,
            gone.obufs,
            gone.connections.at(0),
            outgoing,
        );
    }
    lemma_unknown(gone, new);
    assert(after.datalog == gone.datalog);
    assert(after.notifications == gone.notifications);
    assert(leaving.notifications.len() == 0);
}

/// The first place at which a filter occurs.
proof fn lemma_first_of(inflight: Seq<(u16, usize, Offset)>, f: usize, i: int) -> (h: int)
    requires
        0 <= i < inflight.len(),
        inflight[i].1 == f,
    ensures
        0 <= h <= i,
        inflight[h].1 == f,
        forall|j: int| 0 <= j < h ==> (#[trigger] inflight[j]).1 != f,
    decreases i,
{
    if exists|j: int| 0 <= j < i && (#[trigger] inflight[j]).1 == f {
        let j = choose|j: int| 0 <= j < i && (#[trigger] inflight[j]).1 == f;
        lemma_first_of(inflight, f, j)
    } else {
        i
    }
}

/// Nobody loses or gains a request because somebody is about to leave.
proof fn lemma_leaving_asked(
    state: RouterState,
    id: ConnectionId,
    execute_will: bool,
    now: Instant,
    kind: spec_fn(Seq<char>) -> bool,
)
    requires
        state.inv(),
        state.live(id),
        state.leaving(id, execute_will, now).fits(),
    ensures
        state.leaving(id, execute_will, now).asked(id, kind) == state.asked(id, kind),
{
    let alert = AlertView::Disconnect(state.obufs.at(id).client_id);
    let alerted = state.with_alert(alert);
    state.lemma_with_alert(alert);
    assert(alerted.connections.has(id));
    let connection = alerted.connections.at(id);
    if execute_will {
        if let Some(will) = connection.last_will {
            let given = ConnectionState { last_will: None, ..connection };
            alerted.lemma_with_connection(id, given);
            let taken = RouterState { connections: alerted.connections.set(id, given), ..alerted };
            taken.lemma_published(id, will_publish(will), None, now);
            law_requests_survive_publish(taken, id, will_publish(will), None, now, id, kind);
            let published = taken.published(id, will_publish(will), None, now);
            law_requests_survive_settling(published, id, kind);
        }
    }
}

/// When a connection ends, whatever becomes of its last will, nothing of another
/// connection changes but what it is told of, and no session of another client.
/// Where there is no last will to publish, others are told of nothing.
pub proof fn law_disconnection_is_ones_own(
    state: RouterState,
    id: ConnectionId,
    execute_will: bool,
    moment: Moment,
    other: ConnectionId,
    f: Seq<char>,
    client_id: Seq<char>,
)
    requires
        state.inv(),
        state.notifications.len() == 0,
        state.live(id),
        state.disconnected(id, execute_will, moment).fits(),
    ensures
        ({
            let after = state.disconnected(id, execute_will, moment);
            let old = state.obufs.at(id).client_id;
            let quiet = !execute_will || state.connections.at(id).last_will is None;
            &&& other != id && state.live(other) ==> {
                &&& after.connections.at(other) == state.connections.at(other)
                &&& after.ibufs.at(other) == state.ibufs.at(other)
                &&& after.obufs.at(other) == state.obufs.at(other)
                &&& after.ackslog.at(other) == state.ackslog.at(other)
                &&& lists(after.subscription_map, f, other) == lists(
                    state.subscription_map,
                    f,
                    other,
                )
                &&& quiet ==> after.scheduler.trackers.at(other) == state.scheduler.trackers.at(
                    other,
                )
                &&& quiet ==> parked(after.datalog.native, other) == parked(
                    state.datalog.native,
                    other,
                )
            }
            &&& client_id != old ==> {
                &&& after.connection_map.contains_key(client_id)
                    == state.connection_map.contains_key(client_id)
                &&& state.connection_map.contains_key(client_id)
                    ==> after.connection_map[client_id] == state.connection_map[client_id]
                &&& after.graveyard.contains_key(client_id) == state.graveyard.contains_key(
                    client_id,
                )
                &&& state.graveyard.contains_key(client_id) ==> after.graveyard[client_id]
                    == state.graveyard[client_id]
            }
            &&& after.graveyard.contains_key(old)
            &&& after.graveyard[old].expiry is None
            &&& after.graveyard[old].metrics == record_event(
                state.connections.at(id).events,
                disconnection_event(moment.time@),
            )
            &&& after.graveyard[old].subscriptions == if state.connections.at(id).clean {
                Set::<Seq<char>>::empty()
            } else {
                state.connections.at(id).subscriptions
            }
            &&& state.connections.at(id).clean
                ==> after.graveyard[old].tracker.data_requests.len() == 0
            &&& after.router_meters.total_connections == state.router_meters.total_connections - 1
            &&& quiet ==> same_logs(state.datalog.native, after.datalog.native)
            &&& quiet ==> after.datalog.retained == state.datalog.retained
            &&& quiet ==> after.scheduler.readyqueue == state.scheduler.readyqueue
        }),
{
    let after = state.disconnected(id, execute_will, moment);
    let leaving = state.leaving(id, execute_will, moment.now);
    lemma_disconnected_grows(state, id, execute_will, moment);
    state.lemma_leaving(id, execute_will, moment.now);
    state.lemma_disconnected(id, execute_will, moment);
    leaving.lemma_live_counted(id);
    lemma_leaving_connection(state, id, execute_will, moment.now);
    assert(state.connections.has(id));
    let connection = state.connections.at(id);
    lemma_set_shape(state.connections, id, ConnectionState { last_will: None, ..connection });
    assert(leaving.connections.has(id));
    assert(leaving.scheduler.trackers.has(id));
    assert(leaving.scheduler.trackers.at(id).id == leaving.obufs.at(id).client_id);
    lemma_remove_shape(leaving.connections, leaving.connections, id);
    lemma_remove_shape(leaving.connections, leaving.ibufs, id);
    lemma_remove_shape(leaving.connections, leaving.obufs, id);
    lemma_remove_shape(leaving.connections, leaving.ackslog, id);
    lemma_remove_shape(leaving.connections, leaving.scheduler.trackers, id);
    if other != id && state.live(other) {
        assert(state.connections.has(other));
        assert(leaving.obufs.has(other));
        assert(leaving.connections.has(other));
        assert(leaving.ibufs.has(other));
        assert(leaving.ackslog.has(other));
        assert(leaving.scheduler.trackers.has(other));
        let native = after.datalog.native;
        assert forall|i: int| 0 <= i < native.len() implies requests_of(
            (#[trigger] native[i]).waiters,
            other,
        ) == requests_of(leaving.datalog.native[i].waiters, other) by {
            lemma_requests_of_without(leaving.datalog.native[i].waiters, id, other);
        }
        lemma_parked_same(native, leaving.datalog.native, other);
    }
}

/// What a publish makes of what is retained.
proof fn lemma_publish_keeps_retained(
    datalog: DataLogState,
    connection: ConnectionState,
    publish: Publish,
    props: Option<PublishProperties>,
    now: Instant,
)
    requires
        datalog.wf(),
        append_publish(datalog, connection, publish, props, now).outcome is Ok,
        matching(datalog.native, decode_utf8(bytes_content(publish.topic))).len() > 0,
    ensures
        append_publish(datalog, connection, publish, props, now).datalog.retained
            == after_retention(
            datalog,
            decode_utf8(bytes_content(publish.topic)),
            publish,
            props,
        ).retained,
{
    let topic = decode_utf8(bytes_content(publish.topic));
    let kept = after_retention(datalog, topic, publish, props);
    let entry = LogEntry {
        publish: Publish { retain: false, ..publish },
        expiry: publish_expiry(props, now),
    };
    lemma_matching(kept.native, topic);
    kept.lemma_append_items(spread(matching(kept.native, topic), entry));
}

/// The last will of a connection that is lost is published like a publish of its
/// client: it goes to each log whose filter selects its topic, once, and to no
/// other; who waited there has the request back and, where it had caught up, its
/// turn coming; and it is retained where it asks for that.
pub proof fn law_will_is_published(
    state: RouterState,
    id: ConnectionId,
    moment: Moment,
    i: int,
    k: int,
    j: int,
    one: RetainedView,
)
    requires
        state.inv(),
        state.notifications.len() == 0,
        state.live(id),
        state.disconnected(id, true, moment).fits(),
        state.connections.at(id).last_will is Some,
        valid_utf8(bytes_content(state.connections.at(id).last_will->0.topic)),
        state.config.validate_tenant_prefix && state.connections.at(id).tenant_prefix is Some
            ==> state.connections.at(id).tenant_prefix->0@.is_prefix_of(
            decode_utf8(bytes_content(state.connections.at(id).last_will->0.topic)),
        ),
        0 <= j < state.datalog.native.len(),
        topic_matches(
            decode_utf8(bytes_content(state.connections.at(id).last_will->0.topic)),
            state.datalog.native[j].filter,
        ),
        0 <= i < state.datalog.native.len(),
    ensures
        ({
            let will = state.connections.at(id).last_will->0;
            let topic = decode_utf8(bytes_content(will.topic));
            let after = state.disconnected(id, true, moment);
            let before = state.datalog.native[i];
            let publish = Publish {
                dup: false,
                qos: will.qos,
                retain: will.retain,
                topic: will.topic,
                pkid: 0,
                payload: will.message,
            };
            let entry = LogEntry { publish: Publish { retain: false, ..publish }, expiry: None };
            let empty = bytes_content(will.message).len() == 0;
            &&& after.datalog.native.len() == state.datalog.native.len()
            &&& topic_matches(topic, before.filter) ==> after.datalog.native[i].log
                == before.log.append(entry, LogEntry::weight(entry))
            &&& !topic_matches(topic, before.filter) ==> after.datalog.native[i].log == before.log
            &&& topic_matches(topic, before.filter) && 0 <= k < before.waiters.len()
                && before.waiters[k].0 != id ==> {
                let waiter = before.waiters[k];
                let tracker = after.scheduler.trackers.at(waiter.0);
                &&& tracker.data_requests.contains(waiter.1)
                &&& state.scheduler.trackers.at(waiter.0).status == Status::Paused(
                    PauseReason::Caughtup,
                ) ==> tracker.status is Ready && after.scheduler.readyqueue.contains(waiter.0)
            }
            &&& after.router_meters.failed_publishes == state.router_meters.failed_publishes
            &&& one.topic == topic && !empty && will.retain
                ==> after.datalog.retained.contains(one) == (one == RetainedView {
                topic,
                publish,
                props: None,
            })
            &&& one.topic == topic && empty ==> !after.datalog.retained.contains(one)
            &&& one.topic != topic ==> after.datalog.retained.contains(one)
                == state.datalog.retained.contains(one)
        }),
{
    let will = state.connections.at(id).last_will->0;
    let publish = will_publish(will);
    let topic = decode_utf8(bytes_content(will.topic));
    let alert = AlertView::Disconnect(state.obufs.at(id).client_id);
    let alerted = state.with_alert(alert);
    state.lemma_with_alert(alert);
    assert(alerted.connections.has(id));
    let connection = alerted.connections.at(id);
    let given = ConnectionState { last_will: None, ..connection };
    alerted.lemma_with_connection(id, given);
    lemma_set_shape(alerted.connections, id, given);
    let taken = RouterState { connections: alerted.connections.set(id, given), ..alerted };
    let native = taken.datalog.native;
    lemma_matching(native, topic);
    assert(native[(j as usize) as int] == native[j]);
    assert(matching(native, topic).contains(j as usize));
    lemma_disconnected_grows(state, id, true, moment);
    state.lemma_leaving(id, true, moment.now);
    let published = taken.published(id, publish, None, moment.now);
    assert(published.fits());
    law_publish_reaches_its_logs(taken.datalog, given, publish, None, moment.now, i, k);
    law_publish_reaches_its_logs(taken.datalog, given, publish, None, moment.now, j, 0);
    law_retained_is_the_last(taken.datalog, topic, publish, None, one);
    taken.lemma_published(id, publish, None, moment.now);
    lemma_publish_keeps_retained(taken.datalog, given, publish, None, moment.now);
    let leaving = state.leaving(id, true, moment.now);
    assert(leaving == published.settled());
    let before = state.datalog.native[i];
    if topic_matches(topic, before.filter) && 0 <= k < before.waiters.len() && before.waiters[k].0
        != id {
        let waiter = before.waiters[k];
        law_publish_wakes_subscribers(taken, id, publish, None, moment.now, i, k);
        assert(leaving.connections.has(id));
        lemma_remove_shape(leaving.connections, leaving.scheduler.trackers, id);
        law_no_ghosts(taken, topic, waiter.0, i, k);
        assert(leaving.obufs.has(waiter.0));
        assert(leaving.connections.has(waiter.0));
        assert(leaving.scheduler.trackers.has(waiter.0));
    }
}

/// The last will is for a connection that is lost: nothing that a client sends,
/// other than goodbye, keeps it from being published when the connection ends.
pub proof fn law_will_is_for_who_is_lost(
    turn: Turn,
    id: ConnectionId,
    packets: Seq<Packet>,
    now: Instant,
)
    requires
        forall|i: int| 0 <= i < packets.len() ==> !(#[trigger] packets[i] is Disconnect),
    ensures
        turn.packets(id, packets, now).execute_will == turn.execute_will,
    decreases packets.len(),
{
    if packets.len() > 0 {
        let shorter = packets.drop_last();
        assert forall|i: int| 0 <= i < shorter.len() implies !(
        #[trigger] shorter[i] is Disconnect) by {
            assert(shorter[i] == packets[i]);
        }
        law_will_is_for_who_is_lost(turn, id, shorter, now);
        assert(!(packets[packets.len() - 1] is Disconnect));
    }
}

/// A client that connects while it is connected is treated like one whose
/// connection was lost just before.
pub proof fn law_taking_over(
    state: RouterState,
    connection: ConnectionState,
    incoming: IncomingState,
    outgoing: OutgoingState,
    moment: Moment,
)
    requires
        state.inv(),
        state.notifications.len() == 0,
        clientid_valid(outgoing.client_id),
        state.connection_map.contains_key(outgoing.client_id),
        state.disconnected(state.connection_map[outgoing.client_id], true, moment).fits(),
    ensures
        state.connected(connection, incoming, outgoing, moment) == state.disconnected(
            state.connection_map[outgoing.client_id],
            true,
            moment,
        ).connected(connection, incoming, outgoing, moment),
        !state.disconnected(
            state.connection_map[outgoing.client_id],
            true,
            moment,
        ).connection_map.contains_key(outgoing.client_id),
{
    state.lemma_without_duplicate(outgoing.client_id, moment);
}

/// When a client is let in, nothing of another connection changes, no log, and of
/// the sessions of other clients only those go that have expired.
pub proof fn law_connection_is_ones_own(
    state: RouterState,
    connection: ConnectionState,
    incoming: IncomingState,
    outgoing: OutgoingState,
    moment: Moment,
    other: ConnectionId,
    f: Seq<char>,
    client_id: Seq<char>,
)
    requires
        state.inv(),
        state.notifications.len() == 0,
        clientid_valid(outgoing.client_id),
        !state.connection_map.contains_key(outgoing.client_id),
        state.connections.count() < state.config.max_connections,
    ensures
        ({
            let after = state.connected(connection, incoming, outgoing, moment);
            let id = state.connections.next_key();
            &&& state.live(other) ==> {
                &&& after.live(other)
                &&& after.connections.at(other) == state.connections.at(other)
                &&& after.ibufs.at(other) == state.ibufs.at(other)
                &&& after.obufs.at(other) == state.obufs.at(other)
                &&& after.ackslog.at(other) == state.ackslog.at(other)
                &&& after.scheduler.trackers.at(other) == state.scheduler.trackers.at(other)
                &&& lists(after.subscription_map, f, other) == lists(
                    state.subscription_map,
                    f,
                    other,
                )
            }
            &&& lists(after.subscription_map, f, id) <==> after.connections.at(
                id,
            ).subscriptions.contains(f)
            &&& after.connections.at(id).events == record_event(
                match retrieved(state.graveyard, outgoing.client_id, moment.now) {
                    Some(saved) => saved.metrics,
                    None => Seq::empty(),
                },
                connection_event(moment.time@, connection.clean),
            )
            &&& connection.clean ==> after.connections.at(id).subscriptions
                == connection.subscriptions && after.scheduler.trackers.at(
                id,
            ).data_requests.len() == 0
            &&& !connection.clean && !state.graveyard.contains_key(outgoing.client_id)
                ==> after.connections.at(id).subscriptions == Set::<Seq<char>>::empty()
                && after.scheduler.trackers.at(id).data_requests.len() == 0
            &&& after.scheduler.trackers.at(id).status is Ready
            &&& after.connections.at(id).clean == connection.clean
            &&& after.connections.at(id).tenant_prefix == connection.tenant_prefix
            &&& after.connections.at(id).dynamic_filters == connection.dynamic_filters
            &&& after.connections.at(id).last_will == connection.last_will
            &&& after.datalog == state.datalog
            &&& after.notifications == state.notifications
            &&& after.scheduler.readyqueue == state.scheduler.readyqueue.push(id)
            &&& after.router_meters.total_connections == state.router_meters.total_connections + 1
            &&& client_id != outgoing.client_id ==> {
                &&& after.connection_map.contains_key(client_id)
                    == state.connection_map.contains_key(client_id)
                &&& state.connection_map.contains_key(client_id)
                    ==> after.connection_map[client_id] == state.connection_map[client_id]
                &&& after.graveyard.contains_key(client_id) <==> state.graveyard.contains_key(
                    client_id,
                ) && state.graveyard[client_id].alive(moment.now)
                &&& after.graveyard.contains_key(client_id) ==> after.graveyard[client_id]
                    == state.graveyard[client_id]
            }
            &&& !after.graveyard.contains_key(outgoing.client_id)
        }),
{
    let after = state.connected(connection, incoming, outgoing, moment);
    let id = state.connections.next_key();
    assert(after == state.admitted(connection, incoming, outgoing, moment));
    state.lemma_admitted(connection, incoming, outgoing, moment);
    state.lemma_same_keys();
    let full = after.connections.at(id);
    let found = retrieved(state.graveyard, outgoing.client_id, moment.now);
    let saved = match found {
        Some(saved) => saved,
        None => SavedStateView::new(outgoing.client_id),
    };
    if found is Some {
        assert(state.graveyard.contains_key(outgoing.client_id));
    }
    let tracker = if connection.clean {
        TrackerState::new(outgoing.client_id)
    } else {
        saved.tracker
    };
    let acks = after.ackslog.at(id);
    lemma_insert_shape(state.connections, state.connections, full, full);
    lemma_insert_shape(state.connections, state.ibufs, full, incoming);
    lemma_insert_shape(state.connections, state.obufs, full, outgoing);
    lemma_insert_shape(state.connections, state.ackslog, full, acks);
    lemma_insert_shape(state.connections, state.scheduler.trackers, full, tracker);
    let added = state.scheduler.add(tracker);
    lemma_set_shape(
        added.trackers,
        id,
        TrackerState { status: Status::Ready, ..added.trackers.at(id) },
    );
    if state.live(other) {
        assert(state.connections.has(other));
        assert(state.ibufs.has(other));
        assert(state.ackslog.has(other));
        assert(state.scheduler.trackers.has(other));
        assert(added.trackers.has(other));
    }
    law_no_ghosts(after, f, id, 0, 0);
}

/// The history of a client holds its last events, in the order in which they
/// were, the newest at the end.
pub proof fn law_history_is_the_last_events(events: Seq<Seq<char>>, event: Seq<char>, k: int)
    requires
        events.len() <= MAX_EVENTS,
    ensures
        ({
            let after = record_event(events, event);
            let n = after.len() as int;
            &&& n == if events.len() < MAX_EVENTS {
                events.len() as int + 1
            } else {
                MAX_EVENTS as int
            }
            &&& after[n - 1] == event
            &&& 0 <= k < n - 1 ==> after[n - 2 - k] == events[events.len() - 1 - k]
        }),
{
}

/// A client id is accepted where no character in it means something in topics
/// and filters. A client with any other is turned away, and nothing changes.
pub proof fn law_client_ids(
    state: RouterState,
    connection: ConnectionState,
    incoming: IncomingState,
    outgoing: OutgoingState,
    moment: Moment,
    i: int,
)
    ensures
        clientid_valid(outgoing.client_id) <==> forall|k: int|
            0 <= k < outgoing.client_id.len() ==> (#[trigger] outgoing.client_id[k]) != '+'
                && outgoing.client_id[k] != '$' && outgoing.client_id[k] != '#'
                && outgoing.client_id[k] != '/',
        0 <= i < outgoing.client_id.len() && (outgoing.client_id[i] == '+'
            || outgoing.client_id[i] == '$' || outgoing.client_id[i] == '#'
            || outgoing.client_id[i] == '/') ==> state.connected(
            connection,
            incoming,
            outgoing,
            moment,
        ) == state,
{
    let name = outgoing.client_id;
    if clientid_valid(name) {
        assert forall|k: int| 0 <= k < name.len() implies (#[trigger] name[k]) != '+' && name[k]
            != '$' && name[k] != '#' && name[k] != '/' by {
            assert(name.contains(name[k]));
        }
    }
    if 0 <= i < name.len() {
        assert(name.contains(name[i]));
    }
}

/// A session that is kept comes back as it was, until the time when it is no
/// longer worth keeping, and not afterwards.
pub proof fn law_session_expires(
    saved: Map<Seq<char>, SavedStateView>,
    client_id: Seq<char>,
    now: Instant,
)
    ensures
        ({
            let found = retrieved(saved, client_id, now);
            if saved.contains_key(client_id) {
                match saved[client_id].expiry {
                    None => found == Some(saved[client_id]),
                    Some(expiry) => if instant_nanos(now) < instant_nanos(expiry) {
                        found == Some(saved[client_id])
                    } else {
                        found is None
                    },
                }
            } else {
                found is None
            }
        }),
{
}

/// What is remembered of a connection that begins and of one that ends is when
/// that was, and whether the session was to start anew.
pub proof fn law_history_says_when(time: Seq<char>)
    ensures
        connection_event(time, true) == "connection at "@ + time + ", clean = "@ + "true"@,
        connection_event(time, false) == "connection at "@ + time + ", clean = "@ + "false"@,
        disconnection_event(time) == "disconnection at "@ + time,
{
}

/// A last will that cannot be published counts as a publish that failed: its
/// topic cannot be read or is not the client's to use, or no filter selects it
/// and the client may not bring filters of its own. No log changes.
pub proof fn law_will_that_fails_is_counted(
    state: RouterState,
    id: ConnectionId,
    moment: Moment,
    i: int,
)
    requires
        state.inv(),
        state.notifications.len() == 0,
        state.live(id),
        state.disconnected(id, true, moment).fits(),
        state.connections.at(id).last_will is Some,
        ({
            let bytes = bytes_content(state.connections.at(id).last_will->0.topic);
            let topic = decode_utf8(bytes);
            let connection = state.connections.at(id);
            ||| !valid_utf8(bytes)
            ||| state.config.validate_tenant_prefix && connection.tenant_prefix is Some
                && !connection.tenant_prefix->0@.is_prefix_of(topic)
            ||| !connection.dynamic_filters && forall|k: int|
                0 <= k < state.datalog.native.len() ==> !topic_matches(
                    topic,
                    (#[trigger] state.datalog.native[k]).filter,
                )
        }),
    ensures
        ({
            let after = state.disconnected(id, true, moment);
            &&& after.router_meters.failed_publishes
                == state.router_meters.failed_publishes.wrapping_add(1)
            &&& same_logs(state.datalog.native, after.datalog.native)
            &&& after.scheduler.readyqueue == state.scheduler.readyqueue
        }),
{
    let alerted = state.with_alert(AlertView::Disconnect(state.obufs.at(id).client_id));
    assert(alerted.connections.has(id));
    let connection = alerted.connections.at(id);
    let given = ConnectionState { last_will: None, ..connection };
    lemma_set_shape(alerted.connections, id, given);
    let topic = decode_utf8(bytes_content(connection.last_will->0.topic));
    let native = state.datalog.native;
    lemma_matching(native, topic);
    if matching(native, topic).len() > 0 {
        assert(topic_matches(topic, native[matching(native, topic)[0] as int].filter));
    }
}

/// A last will is published once: it is taken from its connection for that.
pub proof fn law_will_is_published_once(
    state: RouterState,
    id: ConnectionId,
    now: Instant,
    later: Instant,
)
    requires
        state.inv(),
        state.live(id),
    ensures
        state.last_will(id, now).connections.at(id) == (ConnectionState {
            last_will: None,
            ..state.connections.at(id)
        }),
        state.last_will(id, now).last_will(id, later) == state.last_will(id, now),
        state.connections.at(id).last_will is None ==> state.last_will(id, now) == state,
{
    assert(state.connections.has(id));
    lemma_set_shape(
        state.connections,
        id,
        ConnectionState { last_will: None, ..state.connections.at(id) },
    );
}

} // verus!
