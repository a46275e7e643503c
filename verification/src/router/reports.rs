//! What is told of a router: alerts, meters and metrics.
use super::alertlog::{AlertLogState, AlertView};
use super::datalog::{DataLogState, LogEntry};
use super::delivery::{serve, with_shadow};
use super::events::{
    alerts_for, deliveries, opened, read_on, GetMeter, MeterView, MetricsRequest, ALERT_READ_LEN,
};
use super::invariants::{
    lemma_insert_shape, lemma_new_inv, lemma_set_shape, same_shape, subscribes,
};
use super::iobufs::{IncomingMeterState, IncomingState, OutgoingState};
use super::logs::{find_log, lemma_find_log, lemma_matching, lemma_with_filter, matching};
use super::messages::{
    ConnectionId, ConnectionState, DataRequest, Forward, NotificationView, RouterConfig,
    RouterMeter, ShadowReply, SubscriptionMeter, MAX_CHANNEL_CAPACITY,
};
use super::state::{lists, RouterState, Subscribing, Turn, Unsubscribing};
use super::validate::clientid_valid;
use crate::clock::Moment;
use crate::payload::bytes_content;
use crate::protocol::Filter;
use crate::segments::laws::{law_last_entry, law_reading_on};
use crate::segments::log::{Entry, Offset};
use crate::text::digits;
use crate::topic::topic_matches;
use crate::views::{group_views, views};
use std::time::Instant;
use vstd::prelude::*;

verus! {

broadcast use group_views;

/// The logs after an alert went to some of them, at one position.
proof fn lemma_append_to_at(alertlog: AlertLogState, idxs: Seq<usize>, alert: AlertView, i: int)
    requires
        alertlog.wf(),
        forall|k: int| 0 <= k < idxs.len() ==> (#[trigger] idxs[k]) < alertlog.native.len(),
        forall|j: int, k: int| 0 <= j < k < idxs.len() ==> idxs[j] < idxs[k],
        0 <= i < alertlog.native.len(),
    ensures
        ({
            let after = alertlog.append_to(idxs, alert).native;
            &&& after.len() == alertlog.native.len()
            &&& idxs.contains(i as usize) ==> after[i] == alertlog.native[i].append(
                alert,
                alert.weight() as nat,
            )
            &&& !idxs.contains(i as usize) ==> after[i] == alertlog.native[i]
        }),
    decreases idxs.len(),
{
    if idxs.len() > 0 {
        let shorter = idxs.drop_last();
        assert forall|k: int| 0 <= k < shorter.len() implies (#[trigger] shorter[k])
            < alertlog.native.len() by {
            assert(shorter[k] == idxs[k]);
        }
        assert forall|j: int, k: int| 0 <= j < k < shorter.len() implies shorter[j]
            < shorter[k] by {
            assert(shorter[j] == idxs[j] && shorter[k] == idxs[k]);
        }
        lemma_append_to_at(alertlog, shorter, alert, i);
        let last = idxs.len() - 1;
        assert(idxs[last] < alertlog.native.len());
        if shorter.contains(i as usize) {
            let k = choose|k: int| 0 <= k < shorter.len() && shorter[k] == i as usize;
            assert(idxs[k] == i as usize);
            assert(idxs[k] < idxs[last]);
        } else if idxs.contains(i as usize) {
            let k = choose|k: int| 0 <= k < idxs.len() && idxs[k] == i as usize;
            if k < last {
                assert(shorter[k] == i as usize);
            }
        } else {
            assert(idxs[last] != i as usize);
        }
    }
}

/// An alert goes to each log whose filter selects its topic, once, and to no
/// other. Its topic says what it is about, and whom.
pub proof fn law_alert_reaches_its_logs(alertlog: AlertLogState, alert: AlertView, i: int)
    requires
        alertlog.wf(),
        0 <= i < alertlog.native.len(),
    ensures
        ({
            let topic = match alert {
                AlertView::Connect(who) => "/alerts/event/connect/"@ + who,
                AlertView::Disconnect(who) => "/alerts/event/disconnect/"@ + who,
                AlertView::Subscribe(who, _, _) => "/alerts/event/subscribe/"@ + who,
                AlertView::Unsubscribe(who, _, _) => "/alerts/event/unsubscribe/"@ + who,
                AlertView::CursorJump(who, _) => "/alerts/error/cursorjump/"@ + who,
            };
            let who = match alert {
                AlertView::Connect(who) => who,
                AlertView::Disconnect(who) => who,
                AlertView::Subscribe(who, _, _) => who,
                AlertView::Unsubscribe(who, _, _) => who,
                AlertView::CursorJump(who, _) => who,
            };
            let before = alertlog.native[i];
            let after = alertlog.append(alert).native[i];
            &&& alertlog.append(alert).native.len() == alertlog.native.len()
            &&& after.filter == before.filter
            &&& topic_matches(topic, before.filter) ==> exists|weight: nat|
                after.log == #[trigger] before.log.append(alert, weight)
            &&& topic_matches(topic, before.filter) && who.len() + 4 <= usize::MAX ==> after.log
                == before.log.append(alert, who.len() + 4)
            &&& !topic_matches(topic, before.filter) ==> after == before
        }),
{
    let idxs = matching(alertlog.native, alert.topic());
    lemma_matching(alertlog.native, alert.topic());
    lemma_append_to_at(alertlog, idxs, alert, i);
    assert(alertlog.native[(i as usize) as int] == alertlog.native[i]);
    if idxs.contains(i as usize) {
        let k = choose|k: int| 0 <= k < idxs.len() && idxs[k] == i as usize;
        assert(topic_matches(alert.topic(), alertlog.native[idxs[k] as int].filter));
        let after = alertlog.append(alert).native[i];
        assert(after.log == alertlog.native[i].log.append(alert, alert.weight() as nat));
    }
}

proof fn lemma_subscribing_alerts(from: Subscribing, id: ConnectionId, filters: Seq<Filter>)
    ensures
        from.filters(id, filters).state.alertlog == from.state.alertlog,
    decreases filters.len(),
{
    if filters.len() > 0 {
        lemma_subscribing_alerts(from, id, filters.drop_last());
    }
}

proof fn lemma_unsubscribing_alerts(
    from: Unsubscribing,
    id: ConnectionId,
    filters: Seq<String>,
    pkid: u16,
)
    ensures
        from.filters(id, filters, pkid).state.alertlog == from.state.alertlog,
    decreases filters.len(),
{
    if filters.len() > 0 {
        lemma_unsubscribing_alerts(from, id, filters.drop_last(), pkid);
    }
}

/// There is one alert for a connection that begins, for one that ends, and for
/// each packet that subscribes or gives up a subscription, with what it says.
pub proof fn law_alerts_are_raised(
    state: RouterState,
    connection: ConnectionState,
    incoming: IncomingState,
    outgoing: OutgoingState,
    moment: Moment,
    id: ConnectionId,
    execute_will: bool,
    turn: Turn,
    who: Seq<char>,
    pkid: u16,
    filters: Seq<Filter>,
    names: Seq<String>,
)
    ensures
        clientid_valid(outgoing.client_id) && !state.connection_map.contains_key(
            outgoing.client_id,
        ) && state.connections.count() < state.config.max_connections ==> state.connected(
            connection,
            incoming,
            outgoing,
            moment,
        ).alertlog == state.alertlog.append(AlertView::Connect(outgoing.client_id)),
        state.live(id) ==> state.disconnected(id, execute_will, moment).alertlog
            == state.alertlog.append(AlertView::Disconnect(state.obufs.at(id).client_id)),
        turn.subscribe(id, who, pkid, filters).state.alertlog == turn.state.alertlog.append(
            AlertView::Subscribe(who, pkid, filters),
        ),
        turn.unsubscribe(id, who, pkid, names).state.alertlog == turn.state.alertlog.append(
            AlertView::Unsubscribe(who, pkid, names),
        ),
        turn.goodbye(who).state.alertlog == turn.state.alertlog.append(AlertView::Disconnect(who)),
{
    lemma_subscribing_alerts(
        Subscribing { state: turn.state, codes: Seq::empty(), refused: false },
        id,
        filters,
    );
    lemma_unsubscribing_alerts(Unsubscribing { state: turn.state, any: false }, id, names, pkid);
}

/// Where publishes were dropped before a connection could read them there is an
/// alert that says so, from where to where, and otherwise there is none.
pub proof fn law_losses_are_reported(
    datalog: DataLogState,
    alertlog: AlertLogState,
    outgoing: OutgoingState,
    request: DataRequest,
    now: Instant,
)
    requires
        datalog.wf(),
        request.filter_idx < datalog.native.len(),
    ensures
        ({
            let log = datalog.native[request.filter_idx as int].log;
            let out = serve(request, datalog, outgoing, alertlog, now);
            let lost = request.cursor.0 < log.head;
            let says = "Read cursor start jumped from "@ + ("("@ + digits(
                request.cursor.0 as nat,
            ) + ", "@ + digits(request.cursor.1 as nat) + ")"@) + " to "@ + ("("@ + digits(
                log.head as nat,
            ) + ", "@ + digits(log.begin() as nat) + ")"@) + " on "@ + request.filter@;
            &&& out.status is InflightFull || !lost ==> out.alertlog == alertlog
            &&& !(out.status is InflightFull) && lost ==> out.alertlog == alertlog.append(
                AlertView::CursorJump(outgoing.client_id, says),
            )
        }),
{
    let log = datalog.native[request.filter_idx as int].log;
    log.lemma_begin_end();
    assert(log.head <= log.segments[0].base);
}

/// Logs that were asked for are there, and the logs that were there stay as they
/// are.
proof fn lemma_opened(alertlog: AlertLogState, filters: Seq<String>)
    requires
        alertlog.wf(),
        opened(alertlog, filters).0.native.len() <= usize::MAX,
    ensures
        opened(alertlog, filters).0.wf(),
        opened(alertlog, filters).1.len() == filters.len(),
        alertlog.native.is_prefix_of(opened(alertlog, filters).0.native),
    decreases filters.len(),
{
    if filters.len() > 0 {
        let before = opened(alertlog, filters.drop_last());
        let filter = filters.last()@;
        lemma_opened(alertlog, filters.drop_last());
        lemma_with_filter(before.0.native, filter, before.0.config);
        let after = opened(alertlog, filters).0.native;
        assert(alertlog.native =~= after.take(alertlog.native.len() as int)) by {
            assert forall|i: int| 0 <= i < alertlog.native.len() implies alertlog.native[i]
                == #[trigger] after[i] by {
                assert(before.0.native[i] == alertlog.native[i]);
            }
        }
    } else {
        assert(alertlog.native.take(alertlog.native.len() as int) =~= alertlog.native);
    }
}

proof fn lemma_still_found(alertlog: AlertLogState, filter: Seq<char>, name: Seq<char>)
    requires
        alertlog.native.len() <= usize::MAX,
        alertlog.has(name),
    ensures
        alertlog.ensure_log(filter).has(name),
        alertlog.ensure_log(filter).log(name) == alertlog.log(name),
{
    lemma_find_log(alertlog.native, name);
    if !alertlog.has(filter) {
        assert(alertlog.ensure_log(filter).native.drop_last() =~= alertlog.native);
    }
}

/// Who wants to know of alerts hears of those that come from now on: each filter
/// that was asked for has a log, there is nothing to read in it from where the
/// reading starts, and no log that was there changes.
pub proof fn law_link_starts_from_now(
    alertlog: AlertLogState,
    filters: Seq<String>,
    k: int,
    i: int,
    len: u64,
)
    requires
        alertlog.wf(),
        opened(alertlog, filters).0.native.len() <= usize::MAX,
        0 <= k < filters.len(),
    ensures
        ({
            let after = opened(alertlog, filters).0;
            let link = opened(alertlog, filters).1;
            &&& link.len() == filters.len()
            &&& link[k].0 == filters[k]@
            &&& after.has(filters[k]@)
            &&& after.log(filters[k]@).log.read(link[k].1, len).len() == 0
            &&& 0 <= i < alertlog.native.len() ==> after.native[i] == alertlog.native[i]
        }),
    decreases filters.len(),
{
    let shorter = filters.drop_last();
    let before = opened(alertlog, shorter);
    let last = filters.last()@;
    lemma_opened(alertlog, filters);
    lemma_opened(alertlog, shorter);
    lemma_with_filter(before.0.native, last, before.0.config);
    let after = opened(alertlog, filters).0;
    if 0 <= i < alertlog.native.len() {
        assert(after.native[i] == alertlog.native[i]);
    }
    if k < filters.len() - 1 {
        assert(shorter[k] == filters[k]);
        law_link_starts_from_now(alertlog, shorter, k, i, len);
        let name = filters[k]@;
        lemma_find_log(before.0.native, name);
        lemma_still_found(before.0, last, name);
    } else {
        let log = after.log(last).log;
        log.lemma_begin_end();
        log.lemma_tail(log.segments.len() - 1);
    }
}

/// What was handed out of the log of a filter in a round, and what is unread
/// after it, is what was unread before, in order, up to as much as is read at
/// once. So nothing is handed out twice, and nothing is left out.
pub proof fn law_alerts_are_handed_out_once(
    alertlog: AlertLogState,
    link: Seq<(Seq<char>, Offset)>,
    k: int,
)
    requires
        alertlog.wf(),
        0 <= k < link.len(),
        alertlog.has(link[k].0),
    ensures
        ({
            let log = alertlog.log(link[k].0).log;
            let unread = log.read(link[k].1, u64::MAX);
            let after = read_on(alertlog, link);
            let handed = alerts_for(alertlog, seq![link[k]]);
            let left = log.read(after[k].1, u64::MAX);
            &&& after.len() == link.len()
            &&& after[k].0 == link[k].0
            &&& handed + left.map_values(|entry: (AlertView, Offset)| entry.0)
                == unread.map_values(|entry: (AlertView, Offset)| entry.0)
            &&& handed.len() == if unread.len() < ALERT_READ_LEN {
                unread.len()
            } else {
                ALERT_READ_LEN as nat
            }
        }),
{
    let one = seq![link[k]];
    let log = alertlog.log(link[k].0).log;
    let cursor = link[k].1;
    lemma_find_log(alertlog.native, link[k].0);
    assert(one.drop_last() =~= Seq::<(Seq<char>, Offset)>::empty());
    assert(alerts_for(alertlog, one.drop_last()) =~= Seq::<AlertView>::empty());
    log.lemma_begin_end();
    law_reading_on(log, cursor, ALERT_READ_LEN, (u64::MAX - ALERT_READ_LEN) as u64);
    let handed = alerts_for(alertlog, one);
    let read = log.read(cursor, ALERT_READ_LEN);
    assert(handed =~= read.map_values(|entry: (AlertView, Offset)| entry.0));
    let after = read_on(alertlog, link);
    let stop = log.first_read(cursor) + log.read_count(cursor, ALERT_READ_LEN);
    log.lemma_read_from(stop);
    assert(after[k].1 == log.place(stop));
    let left = log.read(after[k].1, u64::MAX);
    let unread = log.read(cursor, u64::MAX);
    assert(unread =~= read + left);
    assert(handed + left.map_values(|entry: (AlertView, Offset)| entry.0)
        =~= unread.map_values(|entry: (AlertView, Offset)| entry.0));
}

/// The alerts for a link are those for its filters, one filter after the other.
pub proof fn law_alerts_for_all_filters(
    alertlog: AlertLogState,
    a: Seq<(Seq<char>, Offset)>,
    b: Seq<(Seq<char>, Offset)>,
)
    ensures
        alerts_for(alertlog, a + b) == alerts_for(alertlog, a) + alerts_for(alertlog, b),
    decreases b.len(),
{
    if b.len() == 0 {
        assert(a + b =~= a);
        assert(alerts_for(alertlog, a) + alerts_for(alertlog, b) =~= alerts_for(alertlog, a));
    } else {
        law_alerts_for_all_filters(alertlog, a, b.drop_last());
        assert((a + b).drop_last() =~= a + b.drop_last());
        assert((a + b).last() == b.last());
        assert(alerts_for(alertlog, a + b) =~= alerts_for(alertlog, a) + alerts_for(alertlog, b));
    }
}

/// Who is handed something.
pub open spec fn handed_to(i: int) -> spec_fn((usize, AlertView)) -> bool {
    |one: (usize, AlertView)| one.0 == i
}

/// Everyone who wants to know of alerts is handed what there is for them in a
/// round, all of it and in order, and nobody else is handed anything.
pub proof fn law_each_link_gets_its_own(
    alertlog: AlertLogState,
    rows: Seq<Option<Seq<(Seq<char>, Offset)>>>,
    i: int,
)
    requires
        rows.len() <= usize::MAX,
    ensures
        ({
            let own = deliveries(alertlog, rows).filter(handed_to(i)).map_values(
                |one: (usize, AlertView)| one.1,
            );
            if 0 <= i < rows.len() && rows[i] is Some {
                own == alerts_for(alertlog, rows[i]->0)
            } else {
                own.len() == 0
            }
        }),
    decreases rows.len(),
{
    let all = deliveries(alertlog, rows);
    if rows.len() == 0 {
        all.lemma_filter_len(handed_to(i));
    } else {
        let shorter = rows.drop_last();
        let before = deliveries(alertlog, shorter);
        let at = (rows.len() - 1) as usize;
        law_each_link_gets_its_own(alertlog, shorter, i);
        if let Some(link) = rows.last() {
            let alerts = alerts_for(alertlog, link);
            let more = alerts.map_values(|alert: AlertView| (at, alert));
            assert(all =~= before + more);
            Seq::filter_distributes_over_add(before, more, handed_to(i));
            if i == at {
                lemma_all_pass(more, handed_to(i));
                assert(before.filter(handed_to(i)).len() == 0) by {
                    let own = before.filter(handed_to(i));
                    assert(own.map_values(|one: (usize, AlertView)| one.1).len() == own.len());
                }
                assert(all.filter(handed_to(i)).map_values(|one: (usize, AlertView)| one.1)
                    =~= alerts);
            } else {
                lemma_none_pass(more, handed_to(i));
                assert(all.filter(handed_to(i)) =~= before.filter(handed_to(i)));
            }
        }
    }
}

proof fn lemma_all_pass<A>(s: Seq<A>, pred: spec_fn(A) -> bool)
    requires
        forall|k: int| 0 <= k < s.len() ==> pred(#[trigger] s[k]),
    ensures
        s.filter(pred) == s,
    decreases s.len(),
{
    reveal(Seq::filter);
    if s.len() > 0 {
        assert(pred(s[s.len() - 1]));
        lemma_all_pass(s.drop_last(), pred);
        assert(s.drop_last().push(s.last()) =~= s);
    }
}

proof fn lemma_none_pass<A>(s: Seq<A>, pred: spec_fn(A) -> bool)
    requires
        forall|k: int| 0 <= k < s.len() ==> !pred(#[trigger] s[k]),
    ensures
        s.filter(pred) == Seq::<A>::empty(),
    decreases s.len(),
{
    reveal(Seq::filter);
    if s.len() > 0 {
        assert(!pred(s[s.len() - 1]));
        lemma_none_pass(s.drop_last(), pred);
    }
}

/// The numbers below one, in order.
pub open spec fn numbers(n: nat) -> Seq<usize> {
    Seq::new(n, |i: int| i as usize)
}

/// The meters of all connections are those of each that is there, once, in the
/// order of their numbers.
pub proof fn law_all_connections_are_metered(state: RouterState, n: nat)
    requires
        n <= usize::MAX,
    ensures
        state.connection_meters(n) == numbers(n).filter(
            |id: usize| state.live(id),
        ).map_values(
            |id: usize|
                MeterView::Connection(
                    state.obufs.at(id).client_id,
                    Some(state.ibufs.at(id).meter),
                    Some(state.obufs.at(id).meter),
                ),
        ),
    decreases n,
{
    let pred = |id: usize| state.live(id);
    let show = |id: usize|
        MeterView::Connection(
            state.obufs.at(id).client_id,
            Some(state.ibufs.at(id).meter),
            Some(state.obufs.at(id).meter),
        );
    let all = numbers(n);
    reveal(Seq::filter);
    if n == 0 {
        assert(state.connection_meters(n) =~= all.filter(pred).map_values(show));
    } else {
        law_all_connections_are_metered(state, (n - 1) as nat);
        assert(all.drop_last() =~= numbers((n - 1) as nat));
        assert(all.last() == (n - 1) as usize);
        assert(state.connection_meters(n) =~= all.filter(pred).map_values(show));
    }
}

/// The clients that are reported under a filter are those of the connections
/// that are listed there, each once, in the order of their numbers.
pub proof fn law_all_subscribers_are_listed(
    state: RouterState,
    ids: Set<ConnectionId>,
    n: nat,
)
    requires
        n <= usize::MAX,
    ensures
        state.clients_in(ids, n) == numbers(n).filter(|id: usize| ids.contains(id)).map_values(
            |id: usize| state.obufs.at(id).client_id,
        ),
    decreases n,
{
    let pred = |id: usize| ids.contains(id);
    let show = |id: usize| state.obufs.at(id).client_id;
    let all = numbers(n);
    reveal(Seq::filter);
    if n == 0 {
        assert(state.clients_in(ids, n) =~= all.filter(pred).map_values(show));
    } else {
        law_all_subscribers_are_listed(state, ids, (n - 1) as nat);
        assert(all.drop_last() =~= numbers((n - 1) as nat));
        assert(all.last() == (n - 1) as usize);
        assert(state.clients_in(ids, n) =~= all.filter(pred).map_values(show));
    }
}

/// What is reported of a client that is connected is the history of its
/// connection and what that waits for. Of one that is not it is what is kept of
/// its session, if anything is.
pub proof fn law_client_is_reported(
    state: RouterState,
    id: ConnectionId,
    client_id: Seq<char>,
    now: Instant,
)
    requires
        state.inv(),
    ensures
        state.live(id) && state.obufs.at(id).client_id == client_id ==> state.client_metrics(
            client_id,
            now,
        ) == Some((state.connections.at(id).events, state.scheduler.trackers.at(id))),
        !state.connection_map.contains_key(client_id) && state.graveyard.contains_key(client_id)
            && state.graveyard[client_id].expiry is None ==> state.client_metrics(client_id, now)
            == Some((state.graveyard[client_id].metrics, state.graveyard[client_id].tracker)),
        !state.connection_map.contains_key(client_id) && !state.graveyard.contains_key(client_id)
            ==> state.client_metrics(client_id, now) is None,
{
    if state.live(id) {
        assert(state.connections.has(id));
    }
}

/// The last publish of a filter is the one that was appended last.
pub proof fn law_shadow_is_the_last(
    datalog: DataLogState,
    idx: usize,
    entry: LogEntry,
    outgoing: OutgoingState,
)
    requires
        datalog.wf(),
        idx < datalog.native.len(),
        datalog.native[idx as int].log.end() < u64::MAX,
    ensures
        ({
            let filter = datalog.native[idx as int].filter;
            let after = datalog.append(idx, entry);
            let outbox = with_shadow(after, outgoing, filter);
            let n = outgoing.buffer.len() as int;
            &&& after.shadow(filter) == Some(entry.publish)
            &&& outbox.buffer.len() >= n + 1
            &&& outbox.buffer.take(n) == outgoing.buffer
            &&& outbox.buffer[n] == NotificationView::Shadow(
                ShadowReply { topic: entry.publish.topic, payload: entry.publish.payload },
            )
            &&& n + 1 >= MAX_CHANNEL_CAPACITY - 1 ==> outbox.buffer.len() == n + 2
                && outbox.buffer[n + 1] is Unschedule
            &&& n + 1 < MAX_CHANNEL_CAPACITY - 1 ==> outbox.buffer.len() == n + 1
            &&& outbox.woken
            &&& outbox.inflight == outgoing.inflight
            &&& outbox.last_pkid == outgoing.last_pkid
            &&& outbox.client_id == outgoing.client_id
        }),
{
    let filter = datalog.native[idx as int].filter;
    let after = datalog.append(idx, entry);
    datalog.lemma_append(idx, entry);
    law_last_entry(datalog.native[idx as int].log, entry, LogEntry::weight(entry));
    lemma_find_log(after.native, filter);
    let found = find_log(after.native, filter)->0;
    assert(after.native[idx as int].filter == filter);
    assert(after.native[found as int].filter == filter);
    let outbox = with_shadow(after, outgoing, filter);
    assert(outbox.buffer.take(outgoing.buffer.len() as int) =~= outgoing.buffer);
}

/// Where a filter has no log, or nothing in it, its last publish is not told.
pub proof fn law_no_shadow_of_nothing(
    datalog: DataLogState,
    filter: Seq<char>,
    outgoing: OutgoingState,
)
    requires
        datalog.wf(),
        forall|i: int|
            0 <= i < datalog.native.len() && (#[trigger] datalog.native[i]).filter == filter
                ==> datalog.native[i].log.begin() == datalog.native[i].log.end(),
    ensures
        with_shadow(datalog, outgoing, filter) == outgoing,
{
    lemma_find_log(datalog.native, filter);
    if let Some(idx) = find_log(datalog.native, filter) {
        let log = datalog.native[idx as int].log;
        log.lemma_begin_end();
        if log.segments.len() > 1 {
            log.lemma_bases(0, log.segments.len() - 1);
        }
    }
}

/// What publishes come to, topics and payloads and a fixed header for each.
pub open spec fn total_size(sent: Seq<Forward>) -> nat
    decreases sent.len(),
{
    if sent.len() == 0 {
        0
    } else {
        let publish = sent.last().publish;
        total_size(sent.drop_last()) + 4 + bytes_content(publish.topic).len() + bytes_content(
            publish.payload,
        ).len()
    }
}

/// Every publish that goes out is counted, with its size.
pub proof fn law_sent_is_counted(
    outgoing: OutgoingState,
    sent: Seq<Forward>,
    qos: u8,
    filter_idx: usize,
)
    requires
        outgoing.meter.publish_count + sent.len() <= usize::MAX,
        outgoing.meter.total_size + total_size(sent) <= usize::MAX,
    ensures
        ({
            let meter = outgoing.push_forwards(sent, qos, filter_idx).meter;
            &&& meter.publish_count == outgoing.meter.publish_count + sent.len()
            &&& meter.total_size == outgoing.meter.total_size + total_size(sent)
        }),
    decreases sent.len(),
{
    if sent.len() > 0 {
        law_sent_is_counted(outgoing, sent.drop_last(), qos, filter_idx);
    }
}

/// Every publish that comes in for a filter is counted there, with its size, and
/// under no other filter.
pub proof fn law_stored_is_counted(
    datalog: DataLogState,
    idx: usize,
    entry: LogEntry,
    i: int,
)
    requires
        datalog.wf(),
        idx < datalog.native.len(),
        0 <= i < datalog.native.len(),
    ensures
        ({
            let before = datalog.native[i];
            let size = 4 + bytes_content(entry.publish.topic).len() + bytes_content(
                entry.publish.payload,
            ).len();
            let after = datalog.append(idx, entry);
            &&& datalog.meter(before.filter) == Some(before.meter)
            &&& i != idx ==> after.meter(before.filter) == Some(before.meter)
            &&& i == idx && before.meter.count < usize::MAX && before.meter.total_size + size
                <= usize::MAX ==> after.meter(before.filter) == Some(
                SubscriptionMeter {
                    count: (before.meter.count + 1) as usize,
                    total_size: (before.meter.total_size + size) as usize,
                },
            )
        }),
{
    let after = datalog.append(idx, entry);
    let filter = datalog.native[i].filter;
    datalog.lemma_append(idx, entry);
    lemma_find_log(datalog.native, filter);
    lemma_find_log(after.native, filter);
    assert(after.native[i].filter == filter);
    assert(datalog.native[find_log(datalog.native, filter)->0 as int].filter == filter);
    assert(after.native[find_log(after.native, filter)->0 as int].filter == filter);
}

/// Where there is no log for a filter there is no meter for it, and nobody waits.
pub proof fn law_no_log_no_meter(datalog: DataLogState, filter: Seq<char>, i: int)
    requires
        datalog.wf(),
    ensures
        0 <= i < datalog.native.len() && datalog.native[i].filter == filter ==> datalog.waiters(
            filter,
        ) == Some(datalog.native[i].waiters),
        (forall|k: int|
            0 <= k < datalog.native.len() ==> (#[trigger] datalog.native[k]).filter != filter)
            ==> datalog.meter(filter) is None && datalog.waiters(filter) is None,
{
    lemma_find_log(datalog.native, filter);
}

/// When alerts are handed out, everyone's reading moves on as far as it was
/// handed something, and nothing else changes.
pub proof fn law_handing_out_moves_on(state: RouterState, i: usize)
    ensures
        ({
            let after = state.alerts_sent();
            &&& after == RouterState { alerts: after.alerts, ..state }
            &&& after.alerts.has(i) == state.alerts.has(i)
            &&& state.alerts.has(i) ==> after.alerts.at(i) == read_on(
                state.alertlog,
                state.alerts.at(i),
            )
        }),
{
}

/// The meter of a client lists the filters that it subscribed to since it came,
/// and not those that it gave up.
pub proof fn law_meter_lists_subscriptions(
    state: RouterState,
    id: ConnectionId,
    filter: Filter,
    name: Seq<char>,
    pkid: u16,
    other: ConnectionId,
)
    requires
        state.inv(),
        state.live(id),
        state.live(other),
    ensures
        ({
            let before = state.ibufs.at(id).meter;
            let more = state.subscribed(id, filter).ibufs;
            let fewer = state.unsubscribed(id, name, pkid).ibufs;
            &&& more.at(id).meter.subscriptions == before.subscriptions.insert(filter.path@)
            &&& more.at(id).meter.publish_count == before.publish_count
            &&& more.at(id).meter.total_size == before.total_size
            &&& lists(state.subscription_map, name, id) ==> fewer.at(id).meter.subscriptions
                == before.subscriptions.remove(name)
            &&& !lists(state.subscription_map, name, id) ==> fewer == state.ibufs
            &&& fewer.at(id).meter.publish_count == before.publish_count
            &&& fewer.at(id).meter.total_size == before.total_size
            &&& other != id ==> more.at(other) == state.ibufs.at(other) && fewer.at(other)
                == state.ibufs.at(other)
        }),
{
    assert(state.connections.has(id) && state.connections.has(other));
    assert(state.ibufs.has(id) && state.ibufs.has(other));
    let incoming = state.ibufs.at(id);
    lemma_set_shape(
        state.ibufs,
        id,
        IncomingState {
            meter: IncomingMeterState {
                subscriptions: incoming.meter.subscriptions.insert(filter.path@),
                ..incoming.meter
            },
            ..incoming
        },
    );
    lemma_set_shape(
        state.ibufs,
        id,
        IncomingState {
            meter: IncomingMeterState {
                subscriptions: incoming.meter.subscriptions.remove(name),
                ..incoming.meter
            },
            ..incoming
        },
    );
}

/// Whoever asks for the meters of a client gets those of its connection; for one
/// that is not connected there are none.
pub proof fn law_meters_of_a_client(
    state: RouterState,
    id: ConnectionId,
    client_id: String,
    meters: Seq<MeterView>,
)
    requires
        state.inv(),
        state.meters_answer(GetMeter::Connection(Some(client_id)), meters),
    ensures
        meters.len() == 1,
        state.live(id) && state.obufs.at(id).client_id == client_id@ ==> meters[0]
            == MeterView::Connection(
            client_id@,
            Some(state.ibufs.at(id).meter),
            Some(state.obufs.at(id).meter),
        ),
        (forall|other: ConnectionId|
            state.live(other) ==> (#[trigger] state.obufs.at(other)).client_id != client_id@)
            ==> meters[0] == MeterView::Connection(Seq::empty(), None, None),
{
    if state.live(id) {
        assert(state.connections.has(id));
    }
    if state.connection_map.contains_key(client_id@) {
        let owner = state.connection_map[client_id@];
        assert(state.live(owner));
        assert(state.obufs.at(owner).client_id == client_id@);
    }
}

/// Whether a report is about a client.
pub open spec fn asks_about(request: MetricsRequest, client_id: Seq<char>) -> bool {
    request matches MetricsRequest::Connection(name) && name@ == client_id
}

/// A report changes nothing, but for one of a client that is not connected: what
/// was kept of its session is handed over, and sessions that have expired go.
pub proof fn law_reports_change_nothing_else(
    state: RouterState,
    request: MetricsRequest,
    now: Instant,
    client_id: Seq<char>,
)
    ensures
        ({
            let after = state.reported(request, now);
            let about = asks_about(request, client_id);
            &&& after == RouterState { graveyard: after.graveyard, ..state }
            &&& !(request is Connection) ==> after == state
            &&& about && state.connection_map.contains_key(client_id) ==> after == state
            &&& after.graveyard.contains_key(client_id) ==> state.graveyard.contains_key(client_id)
                && after.graveyard[client_id] == state.graveyard[client_id]
            &&& state.graveyard.contains_key(client_id) && state.graveyard[client_id].expiry is None
                && !about ==> after.graveyard.contains_key(client_id)
            &&& about && !state.connection_map.contains_key(client_id)
                ==> !after.graveyard.contains_key(client_id)
        }),
{
}

/// Who wants to know of alerts is remembered with the filters that were asked
/// for. Nothing else changes but that these have logs.
pub proof fn law_link_is_remembered(state: RouterState, filters: Seq<String>, other: usize)
    requires
        state.inv(),
        state.alerts.has_room(),
    ensures
        ({
            let after = state.alert_linked(filters);
            let id = state.alerts.next_key();
            &&& !state.alerts.has(id)
            &&& after.alerts.has(id)
            &&& after.alerts.at(id) == opened(state.alertlog, filters).1
            &&& after.alertlog == opened(state.alertlog, filters).0
            &&& other != id ==> after.alerts.has(other) == state.alerts.has(other)
            &&& state.alerts.has(other) ==> after.alerts.at(other) == state.alerts.at(other)
            &&& after == RouterState { alerts: after.alerts, alertlog: after.alertlog, ..state }
        }),
{
    let link = opened(state.alertlog, filters).1;
    lemma_insert_shape(state.alerts, state.alerts, link, link);
}

/// A router that is new has no connections, no logs and nothing retained, nobody
/// is queued, and nothing has been counted.
pub proof fn law_new_router_is_empty(
    router_id: usize,
    config: RouterConfig,
    id: ConnectionId,
    name: Seq<char>,
)
    requires
        config.valid(),
    ensures
        ({
            let state = RouterState::new(router_id, config);
            &&& state.inv()
            &&& state.id == router_id
            &&& state.config == config
            &&& !state.live(id)
            &&& !state.alerts.has(id)
            &&& !state.meters.has(id)
            &&& !state.connection_map.contains_key(name)
            &&& !state.subscription_map.contains_key(name)
            &&& !state.graveyard.contains_key(name)
            &&& state.datalog.native.len() == 0
            &&& state.datalog.retained.len() == 0
            &&& state.alertlog.native.len() == 0
            &&& state.scheduler.readyqueue.len() == 0
            &&& state.notifications.len() == 0
            &&& state.router_meters == RouterMeter {
                router_id,
                total_connections: 0,
                total_subscriptions: 0,
                total_publishes: 0,
                failed_publishes: 0,
            }
        }),
{
    lemma_new_inv(router_id, config);
}

/// Where the meters of all connections are asked for, each connection is among
/// them, and there are no more than there are connections.
pub proof fn law_no_connection_is_left_out(
    state: RouterState,
    meters: Seq<MeterView>,
    id: ConnectionId,
    k: int,
)
    requires
        state.inv(),
        state.meters_answer(GetMeter::Connection(None), meters),
    ensures
        state.live(id) ==> meters.contains(
            MeterView::Connection(
                state.obufs.at(id).client_id,
                Some(state.ibufs.at(id).meter),
                Some(state.obufs.at(id).meter),
            ),
        ),
        0 <= k < meters.len() ==> exists|other: ConnectionId|
            state.live(other) && meters[k] == #[trigger] state.connection_meter(other),
{
    let n = state.obufs.rows.len();
    assert(n <= usize::MAX) by {
        assert(same_shape(state.connections, state.obufs));
    }
    law_all_connections_are_metered(state, n);
    let pred = |one: usize| state.live(one);
    let some = numbers(n).filter(pred);
    let show = |one: usize|
        MeterView::Connection(
            state.obufs.at(one).client_id,
            Some(state.ibufs.at(one).meter),
            Some(state.obufs.at(one).meter),
        );
    assert(meters == some.map_values(show));
    if state.live(id) {
        assert(numbers(n)[id as int] == id);
        numbers(n).lemma_filter_contains(pred, id as int);
        let j = choose|j: int| 0 <= j < some.len() && some[j] == id;
        assert(meters[j] == show(id));
    }
    if 0 <= k < meters.len() {
        numbers(n).lemma_filter_pred(pred, k);
        assert(meters[k] == state.connection_meter(some[k]));
    }
}

/// Under a filter that is reported each client is named whose connection is
/// listed there, and nobody else.
pub proof fn law_no_subscriber_is_left_out(
    state: RouterState,
    filter: Seq<char>,
    row: (String, Vec<String>),
    id: ConnectionId,
    k: int,
)
    requires
        state.inv(),
        state.subscription_map.contains_key(filter),
        state.subscribers_answer(filter, row),
    ensures
        row.0@ == filter,
        lists(state.subscription_map, filter, id) ==> views(row.1@).contains(
            state.obufs.at(id).client_id,
        ),
        0 <= k < row.1@.len() ==> exists|other: ConnectionId| #[trigger]
            lists(state.subscription_map, filter, other) && row.1@[k]@ == state.obufs.at(
                other,
            ).client_id,
{
    let n = state.obufs.rows.len();
    assert(n <= usize::MAX) by {
        assert(same_shape(state.connections, state.obufs));
    }
    let ids = state.subscription_map[filter];
    law_all_subscribers_are_listed(state, ids, n);
    let pred = |one: usize| ids.contains(one);
    let some = numbers(n).filter(pred);
    let show = |one: usize| state.obufs.at(one).client_id;
    assert(views(row.1@) == some.map_values(show));
    if lists(state.subscription_map, filter, id) {
        assert(subscribes(state.connections, filter, id));
        assert(state.connections.has(id) == state.obufs.has(id));
        assert(numbers(n)[id as int] == id);
        numbers(n).lemma_filter_contains(pred, id as int);
        let j = choose|j: int| 0 <= j < some.len() && some[j] == id;
        assert(views(row.1@)[j] == show(id));
    }
    if 0 <= k < row.1@.len() {
        assert(views(row.1@)[k] == row.1@[k]@);
        numbers(n).lemma_filter_pred(pred, k);
        assert(lists(state.subscription_map, filter, some[k]));
    }
}

} // verus!
