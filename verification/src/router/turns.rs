//! What a turn of a connection is for: what has come in for its filters gets to
//! its outbox, all of it, once and in order, and no connection is left waiting
//! that has something to read.
use super::alertlog::AlertLogState;
use super::commit::publish_expiry;
use super::datalog::{
    deliverable, lemma_deliverable_add, lemma_span, parked, span, DataLogState, LogEntry,
};
use super::delivery::{forwards, read_len, serve, with_acks, ConsumeStatus};
use super::invariants::{
    lemma_extend_requests, lemma_parked_requests, lemma_pause, lemma_polled, lemma_set_shape,
    lemma_trackv, request_ok, requests_ok,
};
use super::iobufs::{OutgoingState, MAX_INFLIGHT, MAX_PKID};
use super::laws::law_forwards_are_in_order;
use super::logs::{requests_of, AckLogState, FilterLogState};
use super::messages::{
    AckView, ConnectionId, DataRequest, Forward, NotificationView, MAX_CHANNEL_CAPACITY,
    MAX_SCHEDULE_ITERATIONS,
};
use super::scheduler::{PauseReason, Status, TrackerState};
use super::state::RouterState;
use crate::clock::instant_nanos;
use crate::protocol::{spec_qos, Publish, PublishProperties};
use crate::registry::lemma_push_contains;
use crate::segments::laws::law_reading_on;
use crate::segments::log::Offset;
use std::time::Instant;
use vstd::prelude::*;

verus! {

/// Whether an entry of a log can still be delivered.
pub open spec fn fresh(now: Instant) -> spec_fn((LogEntry, Offset)) -> bool {
    |entry: (LogEntry, Offset)| !entry.0.spec_expired(now)
}

/// A publish with its place in the log.
pub open spec fn placed() -> spec_fn((LogEntry, Offset)) -> (Publish, Offset) {
    |entry: (LogEntry, Offset)| (entry.0.publish, entry.1)
}

/// What there is for a request in the log of its filter and can still be
/// delivered, in the order in which it came in.
pub open spec fn unread(
    native: Seq<FilterLogState<LogEntry>>,
    request: DataRequest,
    now: Instant,
) -> Seq<(Publish, Offset)> {
    native[request.filter_idx as int].log.read(request.cursor, u64::MAX).filter(
        fresh(now),
    ).map_values(placed())
}

/// How many publishes may go out for a request at once: as many as may still be
/// without an ack, or as many as may be read.
pub open spec fn allowance(
    request: DataRequest,
    datalog: DataLogState,
    outgoing: OutgoingState,
) -> int {
    if request.qos == 1 {
        if outgoing.inflight.len() < MAX_INFLIGHT {
            MAX_INFLIGHT - outgoing.inflight.len()
        } else {
            0
        }
    } else {
        datalog.config.max_read_len as int
    }
}

/// Of entries that are read, those that have not expired are delivered.
pub proof fn law_deliverable_is_fresh(read: Seq<(LogEntry, Offset)>, now: Instant)
    ensures
        deliverable(read, now) == read.filter(fresh(now)).map_values(placed()),
    decreases read.len(),
{
    reveal(Seq::filter);
    if read.len() == 0 {
        assert(deliverable(read, now) =~= read.filter(fresh(now)).map_values(placed()));
    } else {
        law_deliverable_is_fresh(read.drop_last(), now);
        let before = read.drop_last().filter(fresh(now));
        assert(before.push(read.last()).map_values(placed()) =~= before.map_values(placed()).push(
            placed()(read.last()),
        ));
    }
}

/// To serve a request is to send the first of what is unread, as much as there
/// is an allowance for, and to leave the rest unread. What is sent goes behind
/// all that waits for the link, in order, each publish as it is but for the
/// quality of service and, where acks are due, the packet id; and each of those
/// is remembered until it is acked. A full outbox, or no allowance for publishes
/// that are to be acked, is the only thing to stop a connection.
pub proof fn law_request_is_served(
    datalog: DataLogState,
    alertlog: AlertLogState,
    outgoing: OutgoingState,
    request: DataRequest,
    now: Instant,
    i: int,
)
    requires
        datalog.wf(),
        request.filter_idx < datalog.native.len(),
        request.qos <= 1,
    ensures
        ({
            let out = serve(request, datalog, outgoing, alertlog, now);
            let all = unread(datalog.native, request, now);
            let left = unread(datalog.native, out.request, now);
            let most = allowance(request, datalog, outgoing);
            let n = outgoing.buffer.len() as int;
            let m = all.len() - left.len();
            let k = outgoing.inflight.len() as int;
            let log = datalog.native[request.filter_idx as int].log;
            &&& m == if all.len() < most {
                all.len() as int
            } else {
                most
            }
            &&& left == all.skip(m)
            &&& out.request == DataRequest {
                cursor: out.request.cursor,
                read_count: out.request.read_count,
                ..request
            }
            &&& out.status is InflightFull ==> out.request == request
            &&& request.read_count + m <= usize::MAX ==> out.request.read_count
                == request.read_count + m
            &&& out.outgoing.buffer.len() == n + m + if out.status is BufferFull {
                1int
            } else {
                0
            }
            &&& 0 <= i < n ==> out.outgoing.buffer[i] == outgoing.buffer[i]
            &&& 0 <= i < m ==> {
                &&& out.outgoing.buffer[n + i] matches NotificationView::Forward(one)
                &&& one.cursor == all[i].1
                &&& one.publish == Publish {
                    qos: spec_qos(request.qos)->0,
                    pkid: one.publish.pkid,
                    ..all[i].0
                }
                &&& request.qos == 0 ==> one.publish.pkid == all[i].0.pkid
                &&& request.qos == 1 ==> out.outgoing.inflight[k + i] == (
                    one.publish.pkid,
                    request.filter_idx,
                    all[i].1,
                )
            }
            &&& request.qos == 0 ==> out.outgoing.inflight == outgoing.inflight
            &&& request.qos == 1 ==> out.outgoing.inflight.len() == k + m
            &&& request.qos == 1 && 0 <= i < k ==> out.outgoing.inflight[i] == outgoing.inflight[i]
            &&& m == 0 ==> out.outgoing == outgoing
            &&& m > 0 ==> out.outgoing.woken
            &&& out.outgoing.client_id == outgoing.client_id
            &&& out.status is InflightFull <==> request.qos == 1 && most == 0
            &&& out.status is BufferFull <==> m > 0 && n + m >= MAX_CHANNEL_CAPACITY - 1
            &&& out.status is BufferFull ==> out.outgoing.buffer.last() is Unschedule
            &&& out.status is FilterCaughtup ==> left.len() == 0 && log.first_read(
                out.request.cursor,
            ) == log.end()
            &&& out.status is PartialRead ==> m == most
        }),
{
    let log = datalog.native[request.filter_idx as int].log;
    let out = serve(request, datalog, outgoing, alertlog, now);
    let most = read_len(request, datalog, outgoing);
    let len = span(log, request.cursor, most, now);
    let all = log.read(request.cursor, u64::MAX);
    let read = log.read(request.cursor, len);
    let sent = deliverable(read, now);
    log.lemma_begin_end();
    lemma_span(log, request.cursor, most, now);
    law_deliverable_is_fresh(all, now);
    if !(out.status is InflightFull) {
        let stop = log.first_read(request.cursor) + len;
        log.lemma_read_from(stop);
        let end = log.place(stop);
        assert(out.request.cursor == end);
        let rest = log.read(end, u64::MAX);
        law_reading_on(log, request.cursor, len, (u64::MAX - len) as u64);
        assert(all =~= read + rest);
        lemma_deliverable_add(read, rest, now);
        law_deliverable_is_fresh(rest, now);
        assert(deliverable(rest, now) =~= deliverable(all, now).skip(sent.len() as int));
        if log.read_position(request.cursor, len) is Done {
            assert(rest =~= Seq::<(LogEntry, Offset)>::empty());
        }
        law_forwards_are_in_order(
            outgoing,
            forwards(sent, request.qos),
            request.qos,
            request.filter_idx,
            i,
        );
        lemma_inflight_order(
            outgoing,
            forwards(sent, request.qos),
            request.qos,
            request.filter_idx,
            i,
        );
        outgoing.lemma_push_forwards(
            forwards(sent, request.qos),
            request.qos,
            request.filter_idx,
        );
    } else {
        assert(unread(datalog.native, request, now).skip(0) =~= unread(
            datalog.native,
            request,
            now,
        ));
    }
}

/// What waits for an ack stays in its order.
proof fn lemma_inflight_order(
    outgoing: OutgoingState,
    sent: Seq<Forward>,
    qos: u8,
    filter_idx: usize,
    i: int,
)
    ensures
        0 <= i < outgoing.inflight.len() ==> outgoing.push_forwards(
            sent,
            qos,
            filter_idx,
        ).inflight[i] == outgoing.inflight[i],
    decreases sent.len(),
{
    if sent.len() > 0 {
        lemma_inflight_order(outgoing, sent.drop_last(), qos, filter_idx, i);
        outgoing.lemma_push_forwards(sent.drop_last(), qos, filter_idx);
    }
}

/// How many publishes are of a kind.
pub open spec fn tally(
    publishes: Seq<(Publish, Offset)>,
    kind: spec_fn((Publish, Offset)) -> bool,
) -> nat
    decreases publishes.len(),
{
    if publishes.len() == 0 {
        0
    } else {
        tally(publishes.drop_last(), kind) + if kind(publishes.last()) {
            1nat
        } else {
            0nat
        }
    }
}

/// What is unread for a request, as it will look to the subscriber. The packet
/// id, which is not known before, is left out.
pub open spec fn expected(
    native: Seq<FilterLogState<LogEntry>>,
    request: DataRequest,
    now: Instant,
) -> Seq<(Publish, Offset)> {
    Seq::new(
        unread(native, request, now).len(),
        |i: int|
            (
                Publish {
                    qos: spec_qos(request.qos)->0,
                    pkid: 0,
                    ..unread(native, request, now)[i].0
                },
                unread(native, request, now)[i].1,
            ),
    )
}

/// How many publishes of a kind are unread for some requests.
pub open spec fn outstanding_publishes(
    native: Seq<FilterLogState<LogEntry>>,
    requests: Seq<DataRequest>,
    now: Instant,
    kind: spec_fn((Publish, Offset)) -> bool,
) -> nat
    decreases requests.len(),
{
    if requests.len() == 0 {
        0
    } else {
        outstanding_publishes(native, requests.drop_last(), now, kind) + tally(
            expected(native, requests.last(), now),
            kind,
        )
    }
}

/// How many publishes of a kind wait for a link, packet ids left out.
pub open spec fn forwarded(
    buffer: Seq<NotificationView>,
    kind: spec_fn((Publish, Offset)) -> bool,
) -> nat
    decreases buffer.len(),
{
    if buffer.len() == 0 {
        0
    } else {
        forwarded(buffer.drop_last(), kind) + match buffer.last() {
            NotificationView::Forward(one) => if kind(
                (Publish { pkid: 0, ..one.publish }, one.cursor),
            ) {
                1nat
            } else {
                0nat
            },
            _ => 0nat,
        }
    }
}

proof fn lemma_tally_add(
    a: Seq<(Publish, Offset)>,
    b: Seq<(Publish, Offset)>,
    kind: spec_fn((Publish, Offset)) -> bool,
)
    ensures
        tally(a + b, kind) == tally(a, kind) + tally(b, kind),
    decreases b.len(),
{
    if b.len() == 0 {
        assert(a + b =~= a);
    } else {
        assert((a + b).drop_last() =~= a + b.drop_last());
        lemma_tally_add(a, b.drop_last(), kind);
    }
}

proof fn lemma_outstanding_add(
    native: Seq<FilterLogState<LogEntry>>,
    a: Seq<DataRequest>,
    b: Seq<DataRequest>,
    now: Instant,
    kind: spec_fn((Publish, Offset)) -> bool,
)
    ensures
        outstanding_publishes(native, a + b, now, kind) == outstanding_publishes(
            native,
            a,
            now,
            kind,
        ) + outstanding_publishes(native, b, now, kind),
    decreases b.len(),
{
    if b.len() == 0 {
        assert(a + b =~= a);
    } else {
        assert((a + b).drop_last() =~= a + b.drop_last());
        lemma_outstanding_add(native, a, b.drop_last(), now, kind);
    }
}

proof fn lemma_outstanding_push(
    native: Seq<FilterLogState<LogEntry>>,
    requests: Seq<DataRequest>,
    request: DataRequest,
    now: Instant,
    kind: spec_fn((Publish, Offset)) -> bool,
)
    ensures
        outstanding_publishes(native, requests.push(request), now, kind) == outstanding_publishes(
            native,
            requests,
            now,
            kind,
        ) + tally(expected(native, request, now), kind),
{
    assert(requests.push(request).drop_last() =~= requests);
}

proof fn lemma_outstanding_first(
    native: Seq<FilterLogState<LogEntry>>,
    requests: Seq<DataRequest>,
    now: Instant,
    kind: spec_fn((Publish, Offset)) -> bool,
)
    requires
        requests.len() > 0,
    ensures
        outstanding_publishes(native, requests, now, kind) == tally(
            expected(native, requests[0], now),
            kind,
        ) + outstanding_publishes(
            native,
            requests.subrange(1, requests.len() as int),
            now,
            kind,
        ),
{
    let first = Seq::<DataRequest>::empty().push(requests[0]);
    let rest = requests.subrange(1, requests.len() as int);
    assert(requests =~= first + rest);
    lemma_outstanding_add(native, first, rest, now, kind);
    lemma_outstanding_push(native, Seq::empty(), requests[0], now, kind);
}

/// Whether logs hold the same.
pub open spec fn same_logs(
    a: Seq<FilterLogState<LogEntry>>,
    b: Seq<FilterLogState<LogEntry>>,
) -> bool {
    &&& a.len() == b.len()
    &&& forall|i: int|
        0 <= i < a.len() ==> (#[trigger] a[i]).log == b[i].log && a[i].filter == b[i].filter
}

proof fn lemma_outstanding_same(
    a: Seq<FilterLogState<LogEntry>>,
    b: Seq<FilterLogState<LogEntry>>,
    requests: Seq<DataRequest>,
    now: Instant,
    kind: spec_fn((Publish, Offset)) -> bool,
)
    requires
        same_logs(a, b),
        forall|i: int| 0 <= i < requests.len() ==> (#[trigger] requests[i]).filter_idx < a.len(),
    ensures
        outstanding_publishes(a, requests, now, kind) == outstanding_publishes(
            b,
            requests,
            now,
            kind,
        ),
    decreases requests.len(),
{
    if requests.len() > 0 {
        let shorter = requests.drop_last();
        assert forall|i: int| 0 <= i < shorter.len() implies (#[trigger] shorter[i]).filter_idx
            < a.len() by {
            assert(shorter[i] == requests[i]);
        }
        lemma_outstanding_same(a, b, shorter, now, kind);
        let last = requests[requests.len() - 1];
        assert(a[last.filter_idx as int].log == b[last.filter_idx as int].log);
        assert(expected(a, last, now) =~= expected(b, last, now));
    }
}

/// Requests in a log that is replaced are counted anew, in other logs' terms.
proof fn lemma_parked_outstanding(
    logs: Seq<FilterLogState<LogEntry>>,
    native: Seq<FilterLogState<LogEntry>>,
    idx: int,
    log: FilterLogState<LogEntry>,
    id: ConnectionId,
    now: Instant,
    kind: spec_fn((Publish, Offset)) -> bool,
)
    requires
        0 <= idx < native.len(),
    ensures
        outstanding_publishes(logs, parked(native.update(idx, log), id), now, kind)
            + outstanding_publishes(logs, requests_of(native[idx].waiters, id), now, kind)
            == outstanding_publishes(logs, parked(native, id), now, kind) + outstanding_publishes(
            logs,
            requests_of(log.waiters, id),
            now,
            kind,
        ),
    decreases native.len(),
{
    let after = native.update(idx, log);
    let shorter = native.drop_last();
    lemma_outstanding_add(
        logs,
        parked(shorter, id),
        requests_of(native.last().waiters, id),
        now,
        kind,
    );
    lemma_outstanding_add(
        logs,
        parked(after.drop_last(), id),
        requests_of(after.last().waiters, id),
        now,
        kind,
    );
    if idx == native.len() - 1 {
        assert(after.drop_last() =~= shorter);
    } else {
        lemma_parked_outstanding(logs, shorter, idx, log, id, now, kind);
        assert(after.drop_last() =~= shorter.update(idx, log));
    }
}

/// Whether a notification is a publish, packet id left out.
pub open spec fn shows(notification: NotificationView, one: (Publish, Offset)) -> bool {
    notification matches NotificationView::Forward(forward) && one == (
        Publish { pkid: 0, ..forward.publish },
        forward.cursor,
    )
}

proof fn lemma_forwarded_prefix(
    before: Seq<NotificationView>,
    after: Seq<NotificationView>,
    sent: Seq<(Publish, Offset)>,
    kind: spec_fn((Publish, Offset)) -> bool,
)
    requires
        after.len() == before.len() + sent.len(),
        forall|i: int| 0 <= i < before.len() ==> after[i] == #[trigger] before[i],
        forall|i: int|
            0 <= i < sent.len() ==> shows(after[before.len() + i], #[trigger] sent[i]),
    ensures
        forwarded(after, kind) == forwarded(before, kind) + tally(sent, kind),
    decreases sent.len(),
{
    if sent.len() == 0 {
        assert(after =~= before);
    } else {
        let shorter = after.drop_last();
        let less = sent.drop_last();
        assert forall|i: int| 0 <= i < less.len() implies shows(
            shorter[before.len() + i],
            #[trigger] less[i],
        ) by {
            assert(less[i] == sent[i]);
            assert(shorter[before.len() + i] == after[before.len() + i]);
        }
        lemma_forwarded_prefix(before, shorter, less, kind);
        assert(sent[sent.len() - 1] == sent.last());
        assert(after[before.len() + (sent.len() - 1)] == after.last());
    }
}

/// What is sent for a request is no longer unread, and nothing else happens to
/// what is unread.
proof fn lemma_serve_keeps(
    datalog: DataLogState,
    alertlog: AlertLogState,
    outgoing: OutgoingState,
    request: DataRequest,
    now: Instant,
    kind: spec_fn((Publish, Offset)) -> bool,
)
    requires
        datalog.wf(),
        request.filter_idx < datalog.native.len(),
        request.qos <= 1,
    ensures
        ({
            let out = serve(request, datalog, outgoing, alertlog, now);
            forwarded(out.outgoing.buffer, kind) + tally(
                expected(datalog.native, out.request, now),
                kind,
            ) == forwarded(outgoing.buffer, kind) + tally(
                expected(datalog.native, request, now),
                kind,
            )
        }),
{
    let out = serve(request, datalog, outgoing, alertlog, now);
    let all = expected(datalog.native, request, now);
    let left = expected(datalog.native, out.request, now);
    law_request_is_served(datalog, alertlog, outgoing, request, now, 0);
    let m = all.len() - left.len();
    let sent = all.take(m);
    assert(left =~= all.skip(m));
    assert(all =~= sent + left);
    lemma_tally_add(sent, left, kind);
    let buffer = out.outgoing.buffer.take(outgoing.buffer.len() + m);
    assert forall|i: int| 0 <= i < outgoing.buffer.len() implies buffer[i]
        == #[trigger] outgoing.buffer[i] by {
        law_request_is_served(datalog, alertlog, outgoing, request, now, i);
    }
    assert forall|i: int| 0 <= i < sent.len() implies shows(
        buffer[outgoing.buffer.len() + i],
        #[trigger] sent[i],
    ) by {
        law_request_is_served(datalog, alertlog, outgoing, request, now, i);
    }
    lemma_forwarded_prefix(outgoing.buffer, buffer, sent, kind);
    if out.status is BufferFull {
        assert(out.outgoing.buffer.drop_last() =~= buffer);
    } else {
        assert(out.outgoing.buffer =~= buffer);
    }
}

/// The steps of a turn that are shared by all that is said of it.
pub proof fn lemma_step(state: RouterState, id: ConnectionId, requests: Seq<DataRequest>, now: Instant)
    requires
        state.inv(),
        state.live(id),
        requests.len() > 0,
        requests_ok(state.datalog.native, requests),
    ensures
        ({
            let rest = requests.subrange(1, requests.len() as int);
            let out = serve(requests[0], state.datalog, state.obufs.at(id), state.alertlog, now);
            let next = RouterState {
                obufs: state.obufs.set(id, out.outgoing),
                alertlog: out.alertlog,
                ..state
            };
            let aside = RouterState { datalog: next.datalog.park(id, out.request), ..next };
            &&& request_ok(state.datalog.native, requests[0])
            &&& request_ok(state.datalog.native, out.request)
            &&& out.request.filter_idx == requests[0].filter_idx
            &&& out.request.qos == requests[0].qos
            &&& next.inv()
            &&& next.live(id)
            &&& next.obufs.at(id) == out.outgoing
            &&& forall|other: ConnectionId| #[trigger] next.obufs.has(other) == state.obufs.has(
                other,
            )
            &&& forall|other: ConnectionId|
                other != id && state.obufs.has(other) ==> #[trigger] next.obufs.at(other)
                    == state.obufs.at(other)
            &&& requests_ok(state.datalog.native, rest)
            &&& requests_ok(state.datalog.native, rest.push(out.request))
            &&& aside.inv()
            &&& requests_ok(aside.datalog.native, rest)
            &&& same_logs(state.datalog.native, aside.datalog.native)
        }),
{
    let rest = requests.subrange(1, requests.len() as int);
    assert(request_ok(state.datalog.native, requests[0]));
    let out = serve(requests[0], state.datalog, state.obufs.at(id), state.alertlog, now);
    state.lemma_serve(id, requests[0], now);
    lemma_set_shape(state.obufs, id, out.outgoing);
    law_request_is_served(
        state.datalog,
        state.alertlog,
        state.obufs.at(id),
        requests[0],
        now,
        0,
    );
    let next = RouterState {
        obufs: state.obufs.set(id, out.outgoing),
        alertlog: out.alertlog,
        ..state
    };
    next.lemma_park(id, out.request);
    assert forall|k: int| 0 <= k < rest.len() implies request_ok(
        state.datalog.native,
        #[trigger] rest[k],
    ) by {
        assert(rest[k] == requests[k + 1]);
    }
    lemma_extend_requests(
        state.datalog.native,
        next.datalog.park(id, out.request).native,
        rest,
    );
}

proof fn lemma_requests_of_push(
    waiters: Seq<(ConnectionId, DataRequest)>,
    one: (ConnectionId, DataRequest),
    id: ConnectionId,
)
    ensures
        requests_of(waiters.push(one), id) == if one.0 == id {
            requests_of(waiters, id).push(one.1)
        } else {
            requests_of(waiters, id)
        },
{
    assert(waiters.push(one).drop_last() =~= waiters);
}

/// What a connection waits for where one more request of it is put aside.
proof fn lemma_park(
    native: Seq<FilterLogState<LogEntry>>,
    id: ConnectionId,
    request: DataRequest,
    other: ConnectionId,
    one: DataRequest,
)
    requires
        request.filter_idx < native.len(),
    ensures
        ({
            let idx = request.filter_idx as int;
            let after = native.update(idx, native[idx].park(id, request));
            &&& other != id ==> parked(after, other) == parked(native, other)
            &&& parked(after, id).len() == parked(native, id).len() + 1
            &&& parked(after, id).contains(request)
            &&& parked(native, id).contains(one) ==> parked(after, id).contains(one)
        }),
    decreases native.len(),
{
    let idx = request.filter_idx as int;
    let log = native[idx].park(id, request);
    let after = native.update(idx, log);
    let shorter = native.drop_last();
    lemma_requests_of_push(native[idx].waiters, (id, request), other);
    lemma_requests_of_push(native[idx].waiters, (id, request), id);
    if idx == native.len() - 1 {
        assert(after.drop_last() =~= shorter);
        let before = parked(shorter, id) + requests_of(native.last().waiters, id);
        assert(parked(after, id) =~= before.push(request));
        lemma_push_contains(before, request, one);
        lemma_push_contains(before, request, request);
    } else {
        assert(after.drop_last() =~= shorter.update(idx, shorter[idx].park(id, request)));
        lemma_park(shorter, id, request, other, one);
        let before = parked(shorter, id);
        let more = parked(after.drop_last(), id);
        let last = requests_of(native.last().waiters, id);
        let k = choose|k: int| 0 <= k < more.len() && more[k] == request;
        assert((more + last)[k] == request);
        if (before + last).contains(one) {
            let j = choose|j: int| 0 <= j < (before + last).len() && (before + last)[j] == one;
            if j < before.len() {
                assert(before[j] == one);
                let h = choose|h: int| 0 <= h < more.len() && more[h] == one;
                assert((more + last)[h] == one);
            } else {
                assert((more + last)[more.len() + (j - before.len())] == one);
            }
        }
    }
}

/// What is unread is sent or still unread after a turn.
proof fn lemma_served_keeps(
    state: RouterState,
    id: ConnectionId,
    requests: Seq<DataRequest>,
    n: nat,
    now: Instant,
    kind: spec_fn((Publish, Offset)) -> bool,
)
    requires
        state.inv(),
        state.live(id),
        requests_ok(state.datalog.native, requests),
    ensures
        ({
            let after = state.served(id, requests, n, now);
            let logs = state.datalog.native;
            forwarded(after.obufs.at(id).buffer, kind) + outstanding_publishes(
                logs,
                after.scheduler.trackers.at(id).data_requests,
                now,
                kind,
            ) + outstanding_publishes(logs, parked(after.datalog.native, id), now, kind)
                == forwarded(state.obufs.at(id).buffer, kind) + outstanding_publishes(
                logs,
                state.scheduler.trackers.at(id).data_requests,
                now,
                kind,
            ) + outstanding_publishes(logs, parked(logs, id), now, kind) + outstanding_publishes(
                logs,
                requests,
                now,
                kind,
            )
        }),
    decreases n,
{
    assert(state.connections.has(id));
    assert(state.scheduler.trackers.has(id));
    let logs = state.datalog.native;
    let held = state.scheduler.trackers.at(id).data_requests;
    if n == 0 {
        lemma_outstanding_add(logs, held, requests, now, kind);
    } else if requests.len() > 0 {
        let rest = requests.subrange(1, requests.len() as int);
        let out = serve(requests[0], state.datalog, state.obufs.at(id), state.alertlog, now);
        let next = RouterState {
            obufs: state.obufs.set(id, out.outgoing),
            alertlog: out.alertlog,
            ..state
        };
        lemma_step(state, id, requests, now);
        lemma_serve_keeps(
            state.datalog,
            state.alertlog,
            state.obufs.at(id),
            requests[0],
            now,
            kind,
        );
        lemma_outstanding_first(logs, requests, now, kind);
        lemma_outstanding_push(logs, rest, out.request, now, kind);
        match out.status {
            ConsumeStatus::FilterCaughtup => {
                let aside = RouterState { datalog: next.datalog.park(id, out.request), ..next };
                let idx = out.request.filter_idx as int;
                lemma_served_keeps(aside, id, rest, (n - 1) as nat, now, kind);
                let after = aside.served(id, rest, (n - 1) as nat, now);
                lemma_served_fit(aside, id, rest, (n - 1) as nat, now);
                lemma_parked_fit(after);
                lemma_parked_fit(aside);
                assert(aside.scheduler.trackers.has(id));
                assert(requests_ok(logs, held));
                lemma_outstanding_same(
                    logs,
                    aside.datalog.native,
                    after.scheduler.trackers.at(id).data_requests,
                    now,
                    kind,
                );
                lemma_outstanding_same(
                    logs,
                    aside.datalog.native,
                    parked(after.datalog.native, id),
                    now,
                    kind,
                );
                lemma_outstanding_same(logs, aside.datalog.native, held, now, kind);
                lemma_outstanding_same(
                    logs,
                    aside.datalog.native,
                    parked(aside.datalog.native, id),
                    now,
                    kind,
                );
                lemma_outstanding_same(logs, aside.datalog.native, rest, now, kind);
                lemma_parked_outstanding(
                    logs,
                    logs,
                    idx,
                    logs[idx].park(id, out.request),
                    id,
                    now,
                    kind,
                );
                lemma_requests_of_push(logs[idx].waiters, (id, out.request), id);
                lemma_outstanding_push(
                    logs,
                    requests_of(logs[idx].waiters, id),
                    out.request,
                    now,
                    kind,
                );
            },
            ConsumeStatus::PartialRead => {
                lemma_served_keeps(
                    next,
                    id,
                    rest.push(out.request),
                    (n - 1) as nat,
                    now,
                    kind,
                );
            },
            _ => {
                lemma_outstanding_add(logs, held, rest.push(out.request), now, kind);
            },
        }
    }
}

/// What waits in a log that is there.
proof fn lemma_parked_fit(state: RouterState)
    requires
        state.inv(),
    ensures
        forall|id: ConnectionId, k: int|
            0 <= k < parked(state.datalog.native, id).len() ==> (#[trigger] parked(
                state.datalog.native,
                id,
            )[k]).filter_idx < state.datalog.native.len(),
{
    assert forall|id: ConnectionId, k: int|
        0 <= k < parked(state.datalog.native, id).len() implies (#[trigger] parked(
        state.datalog.native,
        id,
    )[k]).filter_idx < state.datalog.native.len() by {
        lemma_parked_requests(state.datalog.native, state.obufs, state.datalog.native, id);
        assert(request_ok(state.datalog.native, parked(state.datalog.native, id)[k]));
    }
}

/// A turn leaves a router in order, with the same logs.
proof fn lemma_served_fit(
    state: RouterState,
    id: ConnectionId,
    requests: Seq<DataRequest>,
    n: nat,
    now: Instant,
)
    requires
        state.inv(),
        state.live(id),
        requests_ok(state.datalog.native, requests),
    ensures
        state.served(id, requests, n, now).inv(),
        state.served(id, requests, n, now).live(id),
        same_logs(state.datalog.native, state.served(id, requests, n, now).datalog.native),
        requests_ok(
            state.datalog.native,
            state.served(id, requests, n, now).scheduler.trackers.at(id).data_requests,
        ),
    decreases n,
{
    let native = state.datalog.native;
    assert(state.connections.has(id));
    assert(state.scheduler.trackers.has(id));
    if n == 0 {
        lemma_trackv(native, state.scheduler, id, requests);
        state.lemma_with_scheduler(state.scheduler.trackv(id, requests));
        assert(state.scheduler.trackv(id, requests).trackers.has(id));
    } else if requests.len() == 0 {
        lemma_pause(native, state.scheduler, id, PauseReason::Caughtup);
        state.lemma_with_scheduler(state.scheduler.pause(id, PauseReason::Caughtup));
        assert(state.scheduler.pause(id, PauseReason::Caughtup).trackers.has(id));
    } else {
        let rest = requests.subrange(1, requests.len() as int);
        let out = serve(requests[0], state.datalog, state.obufs.at(id), state.alertlog, now);
        let next = RouterState {
            obufs: state.obufs.set(id, out.outgoing),
            alertlog: out.alertlog,
            ..state
        };
        lemma_step(state, id, requests, now);
        match out.status {
            ConsumeStatus::FilterCaughtup => {
                let aside = RouterState { datalog: next.datalog.park(id, out.request), ..next };
                lemma_served_fit(aside, id, rest, (n - 1) as nat, now);
                let after = aside.served(id, rest, (n - 1) as nat, now);
                let held = after.scheduler.trackers.at(id).data_requests;
                assert forall|k: int| 0 <= k < held.len() implies request_ok(
                    native,
                    #[trigger] held[k],
                ) by {
                    assert(request_ok(aside.datalog.native, held[k]));
                }
            },
            ConsumeStatus::PartialRead => {
                lemma_served_fit(next, id, rest.push(out.request), (n - 1) as nat, now);
            },
            ConsumeStatus::BufferFull => {
                lemma_paused_fit(next, id, rest.push(out.request), PauseReason::Busy);
            },
            ConsumeStatus::InflightFull => {
                lemma_paused_fit(next, id, rest.push(out.request), PauseReason::InflightFull);
            },
        }
    }
}

proof fn lemma_paused_fit(
    state: RouterState,
    id: ConnectionId,
    requests: Seq<DataRequest>,
    reason: PauseReason,
)
    requires
        state.inv(),
        state.live(id),
        requests_ok(state.datalog.native, requests),
    ensures
        state.paused(id, requests, reason).inv(),
        requests_ok(
            state.datalog.native,
            state.paused(id, requests, reason).scheduler.trackers.at(id).data_requests,
        ),
{
    let native = state.datalog.native;
    assert(state.connections.has(id));
    assert(state.scheduler.trackers.has(id));
    lemma_pause(native, state.scheduler, id, reason);
    let paused = state.scheduler.pause(id, reason);
    state.lemma_with_scheduler(paused);
    let quiet = RouterState { scheduler: paused, ..state };
    lemma_trackv(native, paused, id, requests);
    quiet.lemma_with_scheduler(paused.trackv(id, requests));
    assert(paused.trackv(id, requests).trackers.has(id));
}

/// A turn touches nobody else, and takes nothing out of the outbox.
proof fn lemma_served_frame(
    state: RouterState,
    id: ConnectionId,
    requests: Seq<DataRequest>,
    n: nat,
    now: Instant,
    other: ConnectionId,
    one: DataRequest,
    i: int,
)
    requires
        state.inv(),
        state.live(id),
        requests_ok(state.datalog.native, requests),
    ensures
        ({
            let after = state.served(id, requests, n, now);
            let before = state.obufs.at(id);
            let outbox = after.obufs.at(id);
            &&& after == RouterState {
                obufs: after.obufs,
                alertlog: after.alertlog,
                datalog: after.datalog,
                scheduler: after.scheduler,
                ..state
            }
            &&& after.datalog == DataLogState { native: after.datalog.native, ..state.datalog }
            &&& after.obufs.has(other) == state.obufs.has(other)
            &&& other != id ==> parked(after.datalog.native, other) == parked(
                state.datalog.native,
                other,
            )
            &&& other != id && state.live(other) ==> {
                &&& after.obufs.at(other) == state.obufs.at(other)
                &&& after.scheduler.trackers.at(other) == state.scheduler.trackers.at(other)
            }
            &&& outbox.client_id == before.client_id
            &&& outbox.buffer.len() >= before.buffer.len()
            &&& 0 <= i < before.buffer.len() ==> outbox.buffer[i] == before.buffer[i]
            &&& outbox.inflight.len() >= before.inflight.len()
            &&& 0 <= i < before.inflight.len() ==> outbox.inflight[i] == before.inflight[i]
            &&& before.woken || outbox.buffer.len() > before.buffer.len() ==> outbox.woken
            &&& outbox.buffer.len() == before.buffer.len() ==> outbox == before
            &&& parked(after.datalog.native, id).len() >= parked(
                state.datalog.native,
                id,
            ).len()
            &&& parked(state.datalog.native, id).contains(one) ==> parked(
                after.datalog.native,
                id,
            ).contains(one)
            &&& after.scheduler.trackers.at(id).id == state.scheduler.trackers.at(id).id
        }),
    decreases n,
{
    assert(state.connections.has(id));
    assert(state.scheduler.trackers.has(id));
    if state.live(other) {
        assert(state.connections.has(other));
        assert(state.scheduler.trackers.has(other));
    }
    if n > 0 && requests.len() > 0 {
        let rest = requests.subrange(1, requests.len() as int);
        let out = serve(requests[0], state.datalog, state.obufs.at(id), state.alertlog, now);
        let next = RouterState {
            obufs: state.obufs.set(id, out.outgoing),
            alertlog: out.alertlog,
            ..state
        };
        lemma_step(state, id, requests, now);
        law_request_is_served(
            state.datalog,
            state.alertlog,
            state.obufs.at(id),
            requests[0],
            now,
            i,
        );
        assert(next.obufs.has(other) == state.obufs.has(other));
        match out.status {
            ConsumeStatus::FilterCaughtup => {
                let aside = RouterState { datalog: next.datalog.park(id, out.request), ..next };
                lemma_park(state.datalog.native, id, out.request, other, one);
                lemma_served_frame(aside, id, rest, (n - 1) as nat, now, other, one, i);
            },
            ConsumeStatus::PartialRead => {
                lemma_served_frame(
                    next,
                    id,
                    rest.push(out.request),
                    (n - 1) as nat,
                    now,
                    other,
                    one,
                    i,
                );
            },
            _ => {},
        }
    }
}

/// Whether a connection waits for a log that it has read to its end.
pub open spec fn caught_up(
    native: Seq<FilterLogState<LogEntry>>,
    id: ConnectionId,
    filter_idx: usize,
) -> bool {
    exists|request: DataRequest| #[trigger]
        parked(native, id).contains(request) && request.filter_idx == filter_idx
            && native[filter_idx as int].log.first_read(request.cursor)
            == native[filter_idx as int].log.end()
}

/// How a turn ends.
proof fn lemma_served_end(
    state: RouterState,
    id: ConnectionId,
    requests: Seq<DataRequest>,
    n: nat,
    now: Instant,
    k: int,
)
    requires
        state.inv(),
        state.live(id),
        requests_ok(state.datalog.native, requests),
        state.scheduler.readyqueue.len() > 0,
        state.scheduler.readyqueue.last() == id,
    ensures
        ({
            let after = state.served(id, requests, n, now);
            let before = state.scheduler.trackers.at(id);
            let tracker = after.scheduler.trackers.at(id);
            let outbox = after.obufs.at(id);
            let queue = state.scheduler.readyqueue;
            let sent = outbox.buffer.len() - state.obufs.at(id).buffer.len();
            let aside = parked(after.datalog.native, id).len() - parked(
                state.datalog.native,
                id,
            ).len();
            ||| {
                &&& tracker.status == before.status
                &&& after.scheduler.readyqueue == queue
                &&& state.config.max_read_len > 0 ==> sent + aside >= n
            }
            ||| {
                &&& tracker.status == Status::Paused(PauseReason::Busy)
                &&& after.scheduler.readyqueue == queue.drop_last()
                &&& outbox.buffer.len() >= MAX_CHANNEL_CAPACITY
                &&& outbox.buffer.last() is Unschedule
            }
            ||| {
                &&& tracker.status == Status::Paused(PauseReason::InflightFull)
                &&& after.scheduler.readyqueue == queue.drop_last()
                &&& outbox.inflight.len() >= MAX_INFLIGHT
                &&& tracker.data_requests.len() > 0 && tracker.data_requests.last().qos == 1
            }
            ||| {
                &&& tracker.status == Status::Paused(PauseReason::Caughtup)
                &&& after.scheduler.readyqueue == queue.drop_last()
                &&& tracker.data_requests == before.data_requests
                &&& 0 <= k < requests.len() ==> caught_up(
                    after.datalog.native,
                    id,
                    requests[k].filter_idx,
                )
            }
        }),
    decreases n,
{
    assert(state.connections.has(id));
    assert(state.scheduler.trackers.has(id));
    if n > 0 && requests.len() > 0 {
        let rest = requests.subrange(1, requests.len() as int);
        let out = serve(requests[0], state.datalog, state.obufs.at(id), state.alertlog, now);
        let next = RouterState {
            obufs: state.obufs.set(id, out.outgoing),
            alertlog: out.alertlog,
            ..state
        };
        let m = (n - 1) as nat;
        lemma_step(state, id, requests, now);
        law_request_is_served(
            state.datalog,
            state.alertlog,
            state.obufs.at(id),
            requests[0],
            now,
            0,
        );
        match out.status {
            ConsumeStatus::FilterCaughtup => {
                let aside = RouterState { datalog: next.datalog.park(id, out.request), ..next };
                lemma_park(state.datalog.native, id, out.request, id, out.request);
                lemma_served_frame(aside, id, rest, m, now, id, out.request, 0);
                lemma_served_fit(aside, id, rest, m, now);
                let after = aside.served(id, rest, m, now);
                lemma_served_end(aside, id, rest, m, now, k - 1);
                if 0 < k < requests.len() {
                    assert(rest[k - 1] == requests[k]);
                }
                if k == 0 {
                    let idx = out.request.filter_idx as int;
                    assert(state.datalog.native[idx].log == aside.datalog.native[idx].log);
                    assert(aside.datalog.native[idx].log == after.datalog.native[idx].log);
                    assert(parked(after.datalog.native, id).contains(out.request));
                    assert(caught_up(after.datalog.native, id, requests[0].filter_idx));
                }
            },
            ConsumeStatus::PartialRead => {
                let again = rest.push(out.request);
                if k == 0 {
                    lemma_served_end(next, id, again, m, now, again.len() - 1);
                } else {
                    lemma_served_end(next, id, again, m, now, k - 1);
                    if 0 < k < requests.len() {
                        assert(again[k - 1] == requests[k]);
                    }
                }
            },
            _ => {},
        }
    }
}

/// A request among those that a turn gets to has its share.
proof fn lemma_served_fair(
    state: RouterState,
    id: ConnectionId,
    requests: Seq<DataRequest>,
    n: nat,
    now: Instant,
    k: int,
) -> (j: int)
    requires
        state.inv(),
        state.live(id),
        requests_ok(state.datalog.native, requests),
        0 <= k < requests.len(),
        k < n,
        state.config.max_read_len > 0,
        unread(state.datalog.native, requests[k], now).len() > 0,
        state.served(id, requests, n, now).scheduler.trackers.at(id).status != Status::Paused(
            PauseReason::Busy,
        ),
        state.served(id, requests, n, now).scheduler.trackers.at(id).status != Status::Paused(
            PauseReason::InflightFull,
        ),
    ensures
        state.obufs.at(id).buffer.len() <= j < state.served(id, requests, n, now).obufs.at(
            id,
        ).buffer.len(),
        shows(
            state.served(id, requests, n, now).obufs.at(id).buffer[j],
            expected(state.datalog.native, requests[k], now)[0],
        ),
    decreases n,
{
    assert(state.connections.has(id));
    assert(state.scheduler.trackers.has(id));
    let rest = requests.subrange(1, requests.len() as int);
    let before = state.obufs.at(id);
    let out = serve(requests[0], state.datalog, before, state.alertlog, now);
    let next = RouterState {
        obufs: state.obufs.set(id, out.outgoing),
        alertlog: out.alertlog,
        ..state
    };
    let m = (n - 1) as nat;
    lemma_step(state, id, requests, now);
    law_request_is_served(state.datalog, state.alertlog, before, requests[0], now, 0);
    let first = before.buffer.len() as int;
    let aside = RouterState { datalog: next.datalog.park(id, out.request), ..next };
    if out.status is FilterCaughtup {
        lemma_served_frame(aside, id, rest, m, now, id, out.request, first);
        if k == 0 {
            first
        } else {
            assert(rest[k - 1] == requests[k]);
            let idx = requests[k].filter_idx as int;
            assert(request_ok(state.datalog.native, requests[k]));
            assert(state.datalog.native[idx].log == aside.datalog.native[idx].log);
            assert(expected(state.datalog.native, requests[k], now) =~= expected(
                aside.datalog.native,
                requests[k],
                now,
            ));
            lemma_served_fair(aside, id, rest, m, now, k - 1)
        }
    } else if out.status is PartialRead {
        let again = rest.push(out.request);
        lemma_served_frame(next, id, again, m, now, id, out.request, first);
        if k == 0 {
            first
        } else {
            assert(again[k - 1] == requests[k]);
            lemma_served_fair(next, id, again, m, now, k - 1)
        }
    } else {
        0
    }
}

/// A connection whose turn it is, its acks in its outbox, before its requests are
/// served.
pub open spec fn before_serving(state: RouterState) -> RouterState {
    let polled = RouterState { scheduler: state.scheduler.polled(), ..state };
    polled.acked(state.scheduler.readyqueue[0])
}

pub proof fn lemma_before_serving(state: RouterState)
    requires
        state.inv(),
        state.scheduler.readyqueue.len() > 0,
        state.live(state.scheduler.readyqueue[0]),
    ensures
        ({
            let id = state.scheduler.readyqueue[0];
            let start = before_serving(state);
            let requests = state.scheduler.trackers.at(id).data_requests;
            let acks = state.ackslog.at(id).committed;
            let queue = state.scheduler.readyqueue;
            &&& start.inv()
            &&& start.live(id)
            &&& requests_ok(start.datalog.native, requests)
            &&& state.scheduler.polled_requests() == requests
            &&& start.scheduler.readyqueue == queue.subrange(1, queue.len() as int).push(id)
            &&& start.scheduler.trackers.at(id) == TrackerState {
                data_requests: Seq::empty(),
                ..state.scheduler.trackers.at(id)
            }
            &&& start.obufs.at(id) == with_acks(state.obufs.at(id), acks)
            &&& start.ackslog.at(id).committed.len() == 0
            &&& start.ackslog.at(id).recorded == state.ackslog.at(id).recorded
            &&& forall|other: ConnectionId| #[trigger]
                start.obufs.has(other) == state.obufs.has(other)
            &&& forall|other: ConnectionId|
                other != id && #[trigger] state.obufs.has(other) ==> {
                    &&& start.obufs.at(other) == state.obufs.at(other)
                    &&& start.ackslog.at(other) == state.ackslog.at(other)
                    &&& start.scheduler.trackers.at(other) == state.scheduler.trackers.at(other)
                }
        }),
{
    let id = state.scheduler.readyqueue[0];
    assert(state.connections.has(id));
    assert(state.scheduler.trackers.has(id));
    assert(state.ackslog.has(id));
    lemma_polled(state.datalog.native, state.scheduler);
    state.lemma_with_scheduler(state.scheduler.polled());
    let polled = RouterState { scheduler: state.scheduler.polled(), ..state };
    lemma_set_shape(
        state.scheduler.trackers,
        id,
        TrackerState { data_requests: Seq::empty(), ..state.scheduler.trackers.at(id) },
    );
    polled.lemma_acked(id);
    let acks = polled.ackslog.at(id);
    lemma_set_shape(polled.obufs, id, with_acks(polled.obufs.at(id), acks.committed));
    lemma_set_shape(
        polled.ackslog,
        id,
        AckLogState { committed: Seq::empty(), ..acks },
    );
    let start = before_serving(state);
    assert forall|other: ConnectionId| other != id && #[trigger] state.obufs.has(other) implies {
        &&& start.obufs.at(other) == state.obufs.at(other)
        &&& start.ackslog.at(other) == state.ackslog.at(other)
        &&& start.scheduler.trackers.at(other) == state.scheduler.trackers.at(other)
    } by {
        assert(state.connections.has(other));
        assert(state.ackslog.has(other));
        assert(state.scheduler.trackers.has(other));
    }
}

/// In a turn nothing is lost and nothing is sent twice: of publishes of any kind,
/// as many were unread for the connection as are in its outbox afterwards beyond
/// those that were there, or still unread.
pub proof fn law_turn_delivers(
    state: RouterState,
    now: Instant,
    kind: spec_fn((Publish, Offset)) -> bool,
)
    requires
        state.inv(),
        state.scheduler.readyqueue.len() > 0,
        state.live(state.scheduler.readyqueue[0]),
    ensures
        ({
            let id = state.scheduler.readyqueue[0];
            let after = state.consumed(now);
            let logs = state.datalog.native;
            &&& same_logs(logs, after.datalog.native)
            &&& forwarded(after.obufs.at(id).buffer, kind) + outstanding_publishes(
                logs,
                after.scheduler.trackers.at(id).data_requests + parked(after.datalog.native, id),
                now,
                kind,
            ) == forwarded(state.obufs.at(id).buffer, kind) + outstanding_publishes(
                logs,
                state.scheduler.trackers.at(id).data_requests + parked(logs, id),
                now,
                kind,
            )
        }),
{
    let id = state.scheduler.readyqueue[0];
    let start = before_serving(state);
    let requests = state.scheduler.polled_requests();
    let n = MAX_SCHEDULE_ITERATIONS as nat;
    let logs = state.datalog.native;
    lemma_before_serving(state);
    lemma_served_keeps(start, id, requests, n, now, kind);
    lemma_served_fit(start, id, requests, n, now);
    let after = state.consumed(now);
    lemma_outstanding_add(
        logs,
        after.scheduler.trackers.at(id).data_requests,
        parked(after.datalog.native, id),
        now,
        kind,
    );
    lemma_outstanding_add(logs, requests, parked(logs, id), now, kind);
    lemma_forwarded_acks(state.obufs.at(id), state.ackslog.at(id).committed, kind);
}

/// Acks are no publishes.
proof fn lemma_forwarded_acks(
    outgoing: OutgoingState,
    acks: Seq<AckView>,
    kind: spec_fn((Publish, Offset)) -> bool,
)
    ensures
        forwarded(with_acks(outgoing, acks).buffer, kind) == forwarded(outgoing.buffer, kind),
    decreases acks.len(),
{
    if acks.len() > 0 {
        let shorter = acks.drop_last();
        lemma_forwarded_acks(outgoing, shorter, kind);
        let buffer = with_acks(outgoing, acks).buffer;
        assert(buffer.last() is DeviceAck);
        if shorter.len() == 0 {
            assert(buffer.drop_last() =~= outgoing.buffer);
        } else {
            assert(buffer.drop_last() =~= with_acks(outgoing, shorter).buffer);
        }
    }
}

/// A turn ends in one of four ways. The connection has its next turn coming, and
/// was served as often as may be in one turn. It is paused because its outbox is
/// full, and the link is told to say when there is room. It is paused because no
/// more may be sent to it without an ack. Or it has read all its logs to the end
/// and waits for more, with no request left.
pub proof fn law_turn_ends(state: RouterState, now: Instant, k: int)
    requires
        state.inv(),
        state.scheduler.readyqueue.len() > 0,
        state.live(state.scheduler.readyqueue[0]),
    ensures
        ({
            let id = state.scheduler.readyqueue[0];
            let after = state.consumed(now);
            let before = state.scheduler.trackers.at(id);
            let tracker = after.scheduler.trackers.at(id);
            let outbox = after.obufs.at(id);
            let queue = state.scheduler.readyqueue.subrange(
                1,
                state.scheduler.readyqueue.len() as int,
            );
            let sent = outbox.buffer.len() - state.obufs.at(id).buffer.len() - state.ackslog.at(
                id,
            ).committed.len();
            let aside = parked(after.datalog.native, id).len() - parked(
                state.datalog.native,
                id,
            ).len();
            ||| {
                &&& tracker.status == before.status
                &&& after.scheduler.readyqueue == queue.push(id)
                &&& state.config.max_read_len > 0 ==> sent + aside >= MAX_SCHEDULE_ITERATIONS
            }
            ||| {
                &&& tracker.status == Status::Paused(PauseReason::Busy)
                &&& after.scheduler.readyqueue == queue
                &&& outbox.buffer.len() >= MAX_CHANNEL_CAPACITY
                &&& outbox.buffer.last() is Unschedule
            }
            ||| {
                &&& tracker.status == Status::Paused(PauseReason::InflightFull)
                &&& after.scheduler.readyqueue == queue
                &&& outbox.inflight.len() >= MAX_INFLIGHT
                &&& tracker.data_requests.len() > 0 && tracker.data_requests.last().qos == 1
            }
            ||| {
                &&& tracker.status == Status::Paused(PauseReason::Caughtup)
                &&& after.scheduler.readyqueue == queue
                &&& tracker.data_requests.len() == 0
                &&& 0 <= k < before.data_requests.len() ==> caught_up(
                    after.datalog.native,
                    id,
                    before.data_requests[k].filter_idx,
                )
            }
        }),
{
    let id = state.scheduler.readyqueue[0];
    let start = before_serving(state);
    let queue = state.scheduler.readyqueue.subrange(1, state.scheduler.readyqueue.len() as int);
    lemma_before_serving(state);
    assert(queue.push(id).drop_last() =~= queue);
    lemma_served_end(
        start,
        id,
        state.scheduler.polled_requests(),
        MAX_SCHEDULE_ITERATIONS as nat,
        now,
        k,
    );
}

/// Every request that a turn gets to has its share: where the turn does not end
/// early for want of room, the first publish that was unread for it is in the
/// outbox.
pub proof fn law_turn_is_fair(state: RouterState, now: Instant, k: int)
    requires
        state.inv(),
        state.scheduler.readyqueue.len() > 0,
        state.live(state.scheduler.readyqueue[0]),
        state.config.max_read_len > 0,
        0 <= k < MAX_SCHEDULE_ITERATIONS,
        k < state.scheduler.trackers.at(state.scheduler.readyqueue[0]).data_requests.len(),
        unread(
            state.datalog.native,
            state.scheduler.trackers.at(state.scheduler.readyqueue[0]).data_requests[k],
            now,
        ).len() > 0,
        state.consumed(now).scheduler.trackers.at(state.scheduler.readyqueue[0]).status
            != Status::Paused(PauseReason::Busy),
        state.consumed(now).scheduler.trackers.at(state.scheduler.readyqueue[0]).status
            != Status::Paused(PauseReason::InflightFull),
    ensures
        ({
            let id = state.scheduler.readyqueue[0];
            let request = state.scheduler.trackers.at(id).data_requests[k];
            let buffer = state.consumed(now).obufs.at(id).buffer;
            exists|j: int|
                state.obufs.at(id).buffer.len() <= j < buffer.len() && shows(
                    #[trigger] buffer[j],
                    expected(state.datalog.native, request, now)[0],
                )
        }),
{
    lemma_before_serving(state);
    let j = lemma_served_fair(
        before_serving(state),
        state.scheduler.readyqueue[0],
        state.scheduler.polled_requests(),
        MAX_SCHEDULE_ITERATIONS as nat,
        now,
        k,
    );
    let id = state.scheduler.readyqueue[0];
    assert(shows(
        state.consumed(now).obufs.at(id).buffer[j],
        expected(
            state.datalog.native,
            state.scheduler.trackers.at(id).data_requests[k],
            now,
        )[0],
    ));
}

/// A turn is for the connection whose turn it is: all its acks that are pending
/// go to its outbox, in order, behind what is there; its link is told where
/// anything was put there; and nothing of any other connection changes, nor any
/// log.
pub proof fn law_turn_is_ones_own(state: RouterState, now: Instant, other: ConnectionId, i: int)
    requires
        state.inv(),
        state.scheduler.readyqueue.len() > 0,
        state.live(state.scheduler.readyqueue[0]),
    ensures
        ({
            let id = state.scheduler.readyqueue[0];
            let after = state.consumed(now);
            let before = state.obufs.at(id);
            let outbox = after.obufs.at(id);
            let acks = state.ackslog.at(id).committed;
            let n = before.buffer.len() as int;
            &&& after.ackslog.at(id).committed.len() == 0
            &&& after.ackslog.at(id).recorded == state.ackslog.at(id).recorded
            &&& outbox.buffer.len() >= n + acks.len()
            &&& 0 <= i < n ==> outbox.buffer[i] == before.buffer[i]
            &&& 0 <= i < acks.len() ==> outbox.buffer[n + i] == NotificationView::DeviceAck(
                acks[i],
            )
            &&& n + acks.len() <= i < outbox.buffer.len() ==> outbox.buffer[i] is Forward
                || outbox.buffer[i] is Unschedule
            &&& outbox.inflight.len() >= before.inflight.len()
            &&& 0 <= i < before.inflight.len() ==> outbox.inflight[i] == before.inflight[i]
            &&& outbox.buffer.len() > n ==> outbox.woken
            &&& outbox.buffer.len() == n ==> outbox == before
            &&& after.live(other) == state.live(other)
            &&& other != id && state.live(other) ==> {
                &&& after.obufs.at(other) == state.obufs.at(other)
                &&& after.ackslog.at(other) == state.ackslog.at(other)
                &&& after.scheduler.trackers.at(other) == state.scheduler.trackers.at(other)
                &&& parked(after.datalog.native, other) == parked(state.datalog.native, other)
            }
            &&& same_logs(state.datalog.native, after.datalog.native)
            &&& after.datalog.retained == state.datalog.retained
            &&& after.connections == state.connections
            &&& after.connection_map == state.connection_map
            &&& after.subscription_map == state.subscription_map
            &&& after.ibufs == state.ibufs
            &&& after.graveyard == state.graveyard
            &&& after.notifications == state.notifications
            &&& after.router_meters == state.router_meters
        }),
{
    let id = state.scheduler.readyqueue[0];
    let start = before_serving(state);
    let requests = state.scheduler.polled_requests();
    let m = MAX_SCHEDULE_ITERATIONS as nat;
    lemma_before_serving(state);
    assert(start.obufs.has(other) == state.obufs.has(other));
    let one = requests[0];
    let n = state.obufs.at(id).buffer.len() as int;
    lemma_served_frame(start, id, requests, m, now, other, one, i);
    lemma_served_frame(start, id, requests, m, now, other, one, n + i);
    lemma_served_fit(start, id, requests, m, now);
    lemma_served_forwards(start, id, requests, m, now, i);
}

/// Only publishes are added in a turn, and what tells the link to say when there
/// is room.
proof fn lemma_served_forwards(
    state: RouterState,
    id: ConnectionId,
    requests: Seq<DataRequest>,
    n: nat,
    now: Instant,
    i: int,
)
    requires
        state.inv(),
        state.live(id),
        requests_ok(state.datalog.native, requests),
    ensures
        ({
            let buffer = state.served(id, requests, n, now).obufs.at(id).buffer;
            state.obufs.at(id).buffer.len() <= i < buffer.len() ==> buffer[i] is Forward
                || buffer[i] is Unschedule
        }),
    decreases n,
{
    if n > 0 && requests.len() > 0 {
        let rest = requests.subrange(1, requests.len() as int);
        let before = state.obufs.at(id);
        let out = serve(requests[0], state.datalog, before, state.alertlog, now);
        let next = RouterState {
            obufs: state.obufs.set(id, out.outgoing),
            alertlog: out.alertlog,
            ..state
        };
        let m = (n - 1) as nat;
        lemma_step(state, id, requests, now);
        law_request_is_served(
            state.datalog,
            state.alertlog,
            before,
            requests[0],
            now,
            i - before.buffer.len(),
        );
        match out.status {
            ConsumeStatus::FilterCaughtup => {
                let aside = RouterState { datalog: next.datalog.park(id, out.request), ..next };
                lemma_served_frame(aside, id, rest, m, now, id, out.request, i);
                lemma_served_forwards(aside, id, rest, m, now, i);
            },
            ConsumeStatus::PartialRead => {
                let again = rest.push(out.request);
                lemma_served_frame(next, id, again, m, now, id, out.request, i);
                lemma_served_forwards(next, id, again, m, now, i);
            },
            _ => {},
        }
    }
}

/// A connection that is gone, and still in the queue, leaves it, and nothing else
/// changes. Where the queue is empty nothing changes at all.
pub proof fn law_turn_of_nobody(state: RouterState, now: Instant)
    requires
        state.inv(),
        state.scheduler.readyqueue.len() == 0 || !state.live(state.scheduler.readyqueue[0]),
    ensures
        ({
            let after = state.consumed(now);
            let queue = state.scheduler.readyqueue;
            &&& queue.len() == 0 ==> after == state
            &&& queue.len() > 0 ==> after.scheduler.readyqueue == queue.subrange(
                1,
                queue.len() as int,
            )
            &&& after.scheduler.trackers == state.scheduler.trackers
            &&& after == RouterState { scheduler: after.scheduler, ..state }
        }),
{
    if state.scheduler.readyqueue.len() > 0 {
        let id = state.scheduler.readyqueue[0];
        assert(state.connections.has(id) == state.obufs.has(id));
        assert(state.connections.has(id) == state.scheduler.trackers.has(id));
    }
}

/// A publish expires once as many seconds have passed since it came in as it was
/// said to be good for; one of which nothing was said never does.
pub proof fn law_publish_expires(
    publish: Publish,
    props: Option<PublishProperties>,
    since: Instant,
    now: Instant,
)
    ensures
        ({
            let entry = LogEntry { publish, expiry: publish_expiry(props, since) };
            let good_for = match props {
                Some(props) => props.message_expiry_interval,
                None => None,
            };
            match good_for {
                Some(secs) => entry.spec_expired(now) <==> secs == 0 || instant_nanos(now)
                    - instant_nanos(since) >= secs * 1_000_000_000,
                None => !entry.spec_expired(now),
            }
        }),
{
}

/// The number of the packet that was sent some packets before the last.
pub open spec fn numbered_before(last_pkid: u16, j: int) -> int {
    (last_pkid - j - 1) % (MAX_PKID as int) + 1
}

/// Whether what is not acked carries the last numbers that were given, in order.
pub open spec fn numbered(outgoing: OutgoingState) -> bool {
    &&& outgoing.last_pkid < MAX_PKID
    &&& outgoing.inflight.len() <= MAX_PKID
    &&& forall|i: int|
        0 <= i < outgoing.inflight.len() ==> (#[trigger] outgoing.inflight[i]).0
            == numbered_before(outgoing.last_pkid, outgoing.inflight.len() - 1 - i)
}

/// Of what is not acked no two carry the same number, and no number is zero: as
/// long as no more is sent than may be without an ack, numbers that come up again
/// have been acked.
pub proof fn law_packet_ids_are_distinct(
    outgoing: OutgoingState,
    forward: Forward,
    filter_idx: usize,
    i: int,
    j: int,
)
    requires
        numbered(outgoing),
    ensures
        0 <= i < j < outgoing.inflight.len() ==> outgoing.inflight[i].0 != outgoing.inflight[j].0,
        0 <= i < outgoing.inflight.len() ==> 1 <= outgoing.inflight[i].0 <= MAX_PKID,
        outgoing.inflight.len() < MAX_INFLIGHT ==> numbered(
            outgoing.push_forward(forward, 1, filter_idx),
        ),
        numbered(outgoing.push_forward(forward, 0, filter_idx)),
        numbered(outgoing.acked()),
{
    let n = outgoing.inflight.len() as int;
    if 0 <= i < n {
        assert(outgoing.inflight[i].0 == numbered_before(outgoing.last_pkid, n - 1 - i));
    }
    if 0 <= j < n {
        assert(outgoing.inflight[j].0 == numbered_before(outgoing.last_pkid, n - 1 - j));
    }
    let more = outgoing.push_forward(forward, 1, filter_idx);
    if n < MAX_INFLIGHT {
        assert forall|k: int| 0 <= k < more.inflight.len() implies (
        #[trigger] more.inflight[k]).0 == numbered_before(
            more.last_pkid,
            more.inflight.len() - 1 - k,
        ) by {
            if k < n {
                assert(more.inflight[k] == outgoing.inflight[k]);
            }
        }
    }
    let fewer = outgoing.acked();
    assert forall|k: int| 0 <= k < fewer.inflight.len() implies (#[trigger] fewer.inflight[k]).0
        == numbered_before(fewer.last_pkid, fewer.inflight.len() - 1 - k) by {
        assert(fewer.inflight[k] == outgoing.inflight[k + 1]);
    }
}

} // verus!
