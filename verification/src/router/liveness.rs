//! Nobody is forgotten: a connection that has something to read, and is not held
//! up by its own link or client, has its turn coming.
use super::alertlog::AlertView;
use super::commit::{after_retention, publish_expiry};
use super::datalog::{parked, spread, DataLogState, LogEntry};
use super::delivery::{serve, with_shadow, ConsumeStatus};
use super::events::Event;
use super::graveyard::{retrieved, SavedStateView};
use super::invariants::{
    lemma_insert_shape, lemma_pause, lemma_polled, lemma_remove_shape, lemma_set_shape,
    lemma_trackv, lemma_waiters_without, requests_ok, waiters_ok,
};
use super::iobufs::{IncomingState, OutgoingState, MAX_INFLIGHT};
use super::logs::{
    lemma_find_log, lemma_matching, log_index, matching, requests_of, waiters_without,
    FilterLogState,
};
use super::messages::{
    ConnectionId, ConnectionState, DataRequest, NotificationView, RouterConfig,
    MAX_SCHEDULE_ITERATIONS,
};
use super::requests::at_home;
use super::scheduler::{PauseReason, ScheduleReason, SchedulerState, Status, TrackerState};
use super::single::{
    lemma_append_items_len, lemma_disconnected_grows, lemma_packet_grows, lemma_packets,
    lemma_subscribing, lemma_subscribing_grows, lemma_unsubscribing,
};
use super::state::{notified, will_publish, RouterState, Subscribing, Turn, Unsubscribing};
use super::turns::{
    before_serving, law_request_is_served, law_turn_ends, law_turn_is_ones_own, law_turn_of_nobody,
    lemma_before_serving, lemma_step, unread,
};
use super::validate::clientid_valid;
use crate::clock::Moment;
use crate::payload::bytes_content;
use crate::protocol::{Filter, Packet, Publish, PublishProperties};
use std::time::Instant;
use vstd::prelude::*;
use vstd::utf8::decode_utf8;

verus! {

/// Whether those who wait at a log have read it to the end.
pub open spec fn read_through(log: FilterLogState<LogEntry>) -> bool {
    forall|k: int|
        0 <= k < log.waiters.len() ==> log.log.first_read(
            (#[trigger] log.waiters[k]).1.cursor,
        ) == log.log.end()
}

/// Whether all who wait have read their logs to the end.
pub open spec fn all_read_through(native: Seq<FilterLogState<LogEntry>>) -> bool {
    forall|i: int| 0 <= i < native.len() ==> read_through(#[trigger] native[i])
}

/// Whether a connection that is paused is paused for a reason: its link has been
/// told to say when there is room in the outbox, its client has acks to send, or
/// it asks for nothing that is not waited for.
pub open spec fn paused_for_a_reason(tracker: TrackerState, outgoing: OutgoingState) -> bool {
    match tracker.status {
        Status::Ready => true,
        Status::Paused(PauseReason::Busy) => outgoing.buffer.contains(
            NotificationView::Unschedule,
        ),
        Status::Paused(PauseReason::InflightFull) => outgoing.inflight.len() >= MAX_INFLIGHT,
        Status::Paused(PauseReason::Caughtup) => tracker.data_requests.len() == 0,
    }
}

impl RouterState {
    /// Whether one connection, if there is one, is not forgotten.
    pub open spec fn minds(self, id: ConnectionId) -> bool {
        self.live(id) ==> paused_for_a_reason(self.scheduler.trackers.at(id), self.obufs.at(id))
    }

    /// Whether no connection is forgotten.
    pub open spec fn forgets_nobody(self) -> bool {
        &&& all_read_through(self.datalog.native)
        &&& forall|id: ConnectionId| #[trigger] self.minds(id)
    }
}

/// Entries go to logs where nobody waits any more.
proof fn lemma_append_items_read(datalog: DataLogState, items: Seq<(usize, LogEntry)>)
    requires
        all_read_through(datalog.native),
        forall|k: int| 0 <= k < items.len() ==> (#[trigger] items[k]).0 < datalog.native.len(),
    ensures
        all_read_through(datalog.append_items(items).native),
    decreases items.len(),
{
    if items.len() > 0 {
        let shorter = items.drop_last();
        assert forall|k: int| 0 <= k < shorter.len() implies (#[trigger] shorter[k]).0
            < datalog.native.len() by {
            assert(shorter[k] == items[k]);
        }
        lemma_append_items_read(datalog, shorter);
        lemma_append_items_len(datalog, shorter);
        assert(items[items.len() - 1].0 < datalog.native.len());
        let before = datalog.append_items(shorter).native;
        let after = datalog.append_items(items).native;
        assert forall|i: int| 0 <= i < after.len() implies read_through(#[trigger] after[i]) by {
            assert(read_through(before[i]));
        }
    }
}

proof fn lemma_ensured_read(datalog: DataLogState, filter: Seq<char>)
    requires
        all_read_through(datalog.native),
    ensures
        all_read_through(datalog.ensure_log(filter).native),
{
    let after = datalog.ensure_log(filter).native;
    assert forall|i: int| 0 <= i < after.len() implies read_through(#[trigger] after[i]) by {
        if i < datalog.native.len() {
            assert(read_through(datalog.native[i]));
        }
    }
}

/// What was retained goes to a log where nobody waits any more.
proof fn lemma_replayed_read(state: RouterState, filter: Seq<char>)
    requires
        all_read_through(state.datalog.native),
    ensures
        ({
            let opened = state.datalog.ensure_log(filter);
            all_read_through(opened.append_items(opened.replay_items(filter)).native)
        }),
{
    let opened = RouterState { datalog: state.datalog.ensure_log(filter), ..state };
    lemma_ensured_read(state.datalog, filter);
    if opened.datalog.native.len() <= usize::MAX {
        opened.lemma_replay_items(filter);
    }
    lemma_append_items_read(opened.datalog, opened.datalog.replay_items(filter));
}

proof fn lemma_published_read(
    state: RouterState,
    id: ConnectionId,
    publish: Publish,
    props: Option<PublishProperties>,
    now: Instant,
)
    requires
        all_read_through(state.datalog.native),
    ensures
        all_read_through(state.published(id, publish, props, now).datalog.native),
{
    let topic = decode_utf8(bytes_content(publish.topic));
    let kept = after_retention(state.datalog, topic, publish, props);
    let entry = LogEntry {
        publish: Publish { retain: false, ..publish },
        expiry: publish_expiry(props, now),
    };
    if kept.native.len() <= usize::MAX {
        lemma_matching(kept.native, topic);
        lemma_find_log(kept.native, topic);
    }
    lemma_append_items_read(kept, spread(matching(kept.native, topic), entry));
    lemma_ensured_read(kept, topic);
    lemma_append_items_read(
        kept.ensure_log(topic),
        spread(seq![log_index(kept.native, topic)], entry),
    );
}

proof fn lemma_without_read(log: FilterLogState<LogEntry>, id: ConnectionId)
    requires
        read_through(log),
    ensures
        read_through(log.without(id)),
{
    let left = waiters_without(log.waiters, id);
    lemma_waiters_without(log.waiters, id);
    assert forall|k: int| 0 <= k < left.len() implies log.log.first_read(
        (#[trigger] left[k]).1.cursor,
    ) == log.log.end() by {
        assert(log.waiters.contains(left[k]));
        let j = choose|j: int| 0 <= j < log.waiters.len() && log.waiters[j] == left[k];
        assert(log.log.first_read(log.waiters[j].1.cursor) == log.log.end());
    }
}

proof fn lemma_removed_read(datalog: DataLogState, id: ConnectionId, filter: Seq<char>)
    requires
        all_read_through(datalog.native),
    ensures
        all_read_through(datalog.remove_waiter(id, filter).native),
{
    let native = datalog.native;
    let after = datalog.remove_waiter(id, filter).native;
    if native.len() <= usize::MAX {
        lemma_find_log(native, filter);
    }
    assert forall|i: int| 0 <= i < after.len() implies read_through(#[trigger] after[i]) by {
        assert(read_through(native[i]));
        lemma_without_read(native[i], id);
    }
}

/// A connection that is told of something is not left paused where it had
/// nothing to do.
proof fn lemma_track_minds(
    scheduler: SchedulerState,
    id: ConnectionId,
    request: DataRequest,
    reason: ScheduleReason,
    other: ConnectionId,
    outgoing: OutgoingState,
)
    requires
        reason is NewFilter || reason is FreshData,
        scheduler.trackers.has(other),
        paused_for_a_reason(scheduler.trackers.at(other), outgoing),
    ensures
        scheduler.track(id, request).reschedule(id, reason).trackers.has(other),
        paused_for_a_reason(
            scheduler.track(id, request).reschedule(id, reason).trackers.at(other),
            outgoing,
        ),
{
    if scheduler.trackers.has(id) {
        let more = scheduler.trackers.at(id).register(request);
        lemma_set_shape(scheduler.trackers, id, more);
        let tracking = scheduler.track(id, request);
        assert(tracking.trackers.has(id));
        assert(tracking.trackers.has(other));
        lemma_set_shape(tracking.trackers, id, TrackerState { status: Status::Ready, ..more });
        assert(tracking.reschedule(id, reason).trackers.has(other));
    }
}

proof fn lemma_notified_minds(
    scheduler: SchedulerState,
    notifications: Seq<(ConnectionId, DataRequest)>,
    other: ConnectionId,
    outgoing: OutgoingState,
)
    requires
        scheduler.trackers.has(other),
        paused_for_a_reason(scheduler.trackers.at(other), outgoing),
    ensures
        notified(scheduler, notifications).trackers.has(other),
        paused_for_a_reason(notified(scheduler, notifications).trackers.at(other), outgoing),
    decreases notifications.len(),
{
    if notifications.len() > 0 {
        let last = notifications.last();
        lemma_notified_minds(scheduler, notifications.drop_last(), other, outgoing);
        lemma_track_minds(
            notified(scheduler, notifications.drop_last()),
            last.0,
            last.1,
            ScheduleReason::FreshData,
            other,
            outgoing,
        );
    }
}

/// Who is live has a tracker.
pub proof fn lemma_has_tracker(state: RouterState, id: ConnectionId)
    requires
        state.inv(),
        state.live(id),
    ensures
        state.scheduler.trackers.has(id),
        state.connections.has(id),
        state.ackslog.has(id),
{
    assert(state.connections.has(id));
    assert(state.scheduler.trackers.has(id));
    assert(state.ackslog.has(id));
}

proof fn lemma_settled_minds(state: RouterState, other: ConnectionId)
    requires
        state.inv(),
        state.minds(other),
    ensures
        state.settled().minds(other),
{
    if state.live(other) {
        lemma_has_tracker(state, other);
        lemma_notified_minds(
            state.scheduler,
            state.notifications,
            other,
            state.obufs.at(other),
        );
    }
}

proof fn lemma_rescheduled_minds(
    state: RouterState,
    id: ConnectionId,
    reason: ScheduleReason,
    other: ConnectionId,
)
    requires
        state.inv(),
        state.minds(other),
    ensures
        state.rescheduled(id, reason).minds(other),
{
    if state.live(other) && state.scheduler.trackers.has(id) {
        lemma_has_tracker(state, other);
        lemma_set_shape(
            state.scheduler.trackers,
            id,
            TrackerState { status: Status::Ready, ..state.scheduler.trackers.at(id) },
        );
    }
}

proof fn lemma_subscribed_minds(
    state: RouterState,
    id: ConnectionId,
    filter: Filter,
    other: ConnectionId,
)
    requires
        state.inv(),
        state.minds(other),
        all_read_through(state.datalog.native),
    ensures
        state.subscribed(id, filter).minds(other),
        all_read_through(state.subscribed(id, filter).datalog.native),
{
    lemma_replayed_read(state, filter.path@);
    if state.live(other) {
        lemma_has_tracker(state, other);
        let request = DataRequest {
            filter: filter.path,
            filter_idx: log_index(state.datalog.native, filter.path@),
            qos: filter.qos.spec_level(),
            cursor: state.datalog.next_offset(filter.path@),
            read_count: 0,
            max_count: 100,
        };
        lemma_track_minds(
            state.scheduler,
            id,
            request,
            ScheduleReason::NewFilter,
            other,
            state.obufs.at(other),
        );
    }
}

proof fn lemma_unsubscribed_minds(
    state: RouterState,
    id: ConnectionId,
    filter: Seq<char>,
    pkid: u16,
    other: ConnectionId,
)
    requires
        state.inv(),
        state.live(id),
        state.minds(other),
        all_read_through(state.datalog.native),
    ensures
        state.unsubscribed(id, filter, pkid).minds(other),
        all_read_through(state.unsubscribed(id, filter, pkid).datalog.native),
{
    reveal(Seq::filter);
    lemma_has_tracker(state, id);
    let fewer = state.scheduler.trackers.at(id).unregister(filter);
    lemma_set_shape(state.scheduler.trackers, id, fewer);
    if state.live(other) {
        lemma_has_tracker(state, other);
    }
    lemma_removed_read(state.datalog, id, filter);
}

proof fn lemma_subscribing_minds(
    from: Subscribing,
    id: ConnectionId,
    filters: Seq<Filter>,
    other: ConnectionId,
)
    requires
        from.state.inv(),
        from.state.live(id),
        from.filters(id, filters).state.fits(),
        from.state.minds(other),
        all_read_through(from.state.datalog.native),
    ensures
        from.filters(id, filters).state.minds(other),
        all_read_through(from.filters(id, filters).state.datalog.native),
    decreases filters.len(),
{
    if filters.len() > 0 {
        let shorter = filters.drop_last();
        let before = from.filters(id, shorter);
        let one = seq![filters.last()];
        assert(one.drop_last() =~= Seq::<Filter>::empty());
        assert(before.filters(id, one.drop_last()) == before);
        assert(before.filters(id, one) == before.filter(id, filters.last()));
        lemma_subscribing_grows(before, id, one);
        lemma_subscribing(from, id, shorter);
        lemma_subscribing_minds(from, id, shorter, other);
        lemma_subscribed_minds(before.state, id, filters.last(), other);
    }
}

proof fn lemma_unsubscribing_minds(
    from: Unsubscribing,
    id: ConnectionId,
    filters: Seq<String>,
    pkid: u16,
    other: ConnectionId,
)
    requires
        from.state.inv(),
        from.state.live(id),
        from.state.minds(other),
        all_read_through(from.state.datalog.native),
    ensures
        from.filters(id, filters, pkid).state.minds(other),
        all_read_through(from.filters(id, filters, pkid).state.datalog.native),
    decreases filters.len(),
{
    if filters.len() > 0 {
        let shorter = filters.drop_last();
        lemma_unsubscribing_minds(from, id, shorter, pkid, other);
        lemma_unsubscribing(from, id, shorter, pkid);
        let before = from.filters(id, shorter, pkid);
        lemma_unsubscribed_minds(before.state, id, filters.last()@, pkid, other);
    }
}

/// An ack of a client takes one publish off the list of those that it owes acks
/// for, and so its connection is queued where it was paused for that.
proof fn lemma_acked_minds(turn: Turn, id: ConnectionId, pkid: u16, other: ConnectionId)
    requires
        turn.ok(id),
        !turn.stopped,
        turn.state.minds(other),
    ensures
        turn.puback(id, pkid).state.minds(other) || (other == id && turn.puback(
            id,
            pkid,
        ).disconnect),
        turn.pubrec(id, pkid).state.minds(other) || (other == id && turn.pubrec(
            id,
            pkid,
        ).disconnect),
{
    let state = turn.state;
    let row = state.obufs.at(id).acked();
    lemma_has_tracker(state, id);
    lemma_set_shape(state.obufs, id, row);
    lemma_set_shape(
        state.scheduler.trackers,
        id,
        TrackerState { status: Status::Ready, ..state.scheduler.trackers.at(id) },
    );
    if state.live(other) {
        lemma_has_tracker(state, other);
    }
}

/// A packet makes nobody forgotten, other than its sender where that is to go.
proof fn lemma_packet_minds(
    turn: Turn,
    id: ConnectionId,
    client_id: Seq<char>,
    packet: Packet,
    now: Instant,
    other: ConnectionId,
)
    requires
        turn.ok(id),
        turn.packet(id, client_id, packet, now).state.fits(),
        turn.state.minds(other) || (other == id && turn.disconnect),
        all_read_through(turn.state.datalog.native),
    ensures
        turn.packet(id, client_id, packet, now).state.minds(other) || (other == id && turn.packet(
            id,
            client_id,
            packet,
            now,
        ).disconnect),
        all_read_through(turn.packet(id, client_id, packet, now).state.datalog.native),
{
    let state = turn.state;
    if !turn.stopped {
        match packet {
            Packet::Publish(publish, props) => {
                lemma_published_read(state, id, publish, props, now);
            },
            Packet::Subscribe(subscribe) => {
                let from = Subscribing { state, codes: Seq::empty(), refused: false };
                if state.minds(other) {
                    lemma_subscribing_minds(from, id, subscribe.filters@, other);
                } else {
                    assert(state.live(other));
                    lemma_subscribing_read(from, id, subscribe.filters@);
                }
            },
            Packet::Unsubscribe(unsubscribe) => {
                let from = Unsubscribing { state, any: false };
                if state.minds(other) {
                    lemma_unsubscribing_minds(
                        from,
                        id,
                        unsubscribe.filters@,
                        unsubscribe.pkid,
                        other,
                    );
                } else {
                    lemma_unsubscribing_read(from, id, unsubscribe.filters@, unsubscribe.pkid);
                }
            },
            Packet::PubAck(ack) => {
                if state.minds(other) {
                    lemma_acked_minds(turn, id, ack.pkid, other);
                }
            },
            Packet::PubRec(ack) => {
                if state.minds(other) {
                    lemma_acked_minds(turn, id, ack.pkid, other);
                }
            },
            Packet::PubRel(_, None) => {
                let acks = state.ackslog.at(id);
                if acks.recorded.len() > 0 {
                    lemma_published_read(state, id, acks.recorded[0], None, now);
                }
            },
            _ => {},
        }
    }
}

proof fn lemma_subscribing_read(from: Subscribing, id: ConnectionId, filters: Seq<Filter>)
    requires
        all_read_through(from.state.datalog.native),
    ensures
        all_read_through(from.filters(id, filters).state.datalog.native),
    decreases filters.len(),
{
    if filters.len() > 0 {
        lemma_subscribing_read(from, id, filters.drop_last());
        let before = from.filters(id, filters.drop_last()).state;
        lemma_replayed_read(before, filters.last().path@);
    }
}

proof fn lemma_unsubscribing_read(
    from: Unsubscribing,
    id: ConnectionId,
    filters: Seq<String>,
    pkid: u16,
)
    requires
        all_read_through(from.state.datalog.native),
    ensures
        all_read_through(from.filters(id, filters, pkid).state.datalog.native),
    decreases filters.len(),
{
    if filters.len() > 0 {
        lemma_unsubscribing_read(from, id, filters.drop_last(), pkid);
        let before = from.filters(id, filters.drop_last(), pkid).state;
        lemma_removed_read(before.datalog, id, filters.last()@);
    }
}

proof fn lemma_packets_minds(
    turn: Turn,
    id: ConnectionId,
    packets: Seq<Packet>,
    now: Instant,
    other: ConnectionId,
)
    requires
        turn.ok(id),
        turn.packets(id, packets, now).state.fits(),
        turn.state.minds(other),
        all_read_through(turn.state.datalog.native),
    ensures
        turn.packets(id, packets, now).state.minds(other) || (other == id && turn.packets(
            id,
            packets,
            now,
        ).disconnect),
        all_read_through(turn.packets(id, packets, now).state.datalog.native),
    decreases packets.len(),
{
    if packets.len() > 0 {
        let shorter = packets.drop_last();
        let before = turn.packets(id, shorter, now);
        let client_id = turn.state.ibufs.at(id).client_id;
        lemma_packet_grows(before, id, client_id, packets.last(), now);
        lemma_packets(turn, id, shorter, now);
        lemma_packets_minds(turn, id, shorter, now, other);
        lemma_packet_minds(before, id, client_id, packets.last(), now, other);
    }
}

proof fn lemma_leaving_minds(
    state: RouterState,
    id: ConnectionId,
    execute_will: bool,
    now: Instant,
    other: ConnectionId,
)
    requires
        state.inv(),
        state.live(id),
        state.leaving(id, execute_will, now).fits(),
        state.minds(other),
        all_read_through(state.datalog.native),
    ensures
        state.leaving(id, execute_will, now).minds(other),
        all_read_through(state.leaving(id, execute_will, now).datalog.native),
{
    let alert = AlertView::Disconnect(state.obufs.at(id).client_id);
    let alerted = state.with_alert(alert);
    state.lemma_with_alert(alert);
    lemma_has_tracker(alerted, id);
    let connection = alerted.connections.at(id);
    if let Some(will) = connection.last_will {
        let given = ConnectionState { last_will: None, ..connection };
        alerted.lemma_with_connection(id, given);
        let taken = RouterState { connections: alerted.connections.set(id, given), ..alerted };
        lemma_published_read(taken, id, will_publish(will), None, now);
        if execute_will {
            taken.lemma_published(id, will_publish(will), None, now);
            lemma_settled_minds(taken.published(id, will_publish(will), None, now), other);
        }
    }
}

proof fn lemma_disconnected_read(
    state: RouterState,
    id: ConnectionId,
    execute_will: bool,
    moment: Moment,
)
    requires
        all_read_through(state.datalog.native),
    ensures
        all_read_through(state.disconnected(id, execute_will, moment).datalog.native),
{
    let alert = AlertView::Disconnect(state.obufs.at(id).client_id);
    let alerted = state.with_alert(alert);
    let connection = alerted.connections.at(id);
    if let Some(will) = connection.last_will {
        let given = ConnectionState { last_will: None, ..connection };
        let taken = RouterState { connections: alerted.connections.set(id, given), ..alerted };
        lemma_published_read(taken, id, will_publish(will), None, moment.now);
    }
    let leaving = state.leaving(id, execute_will, moment.now);
    assert(all_read_through(leaving.datalog.native));
    let after = leaving.datalog.clean(id).native;
    assert forall|i: int| 0 <= i < after.len() implies read_through(#[trigger] after[i]) by {
        assert(read_through(leaving.datalog.native[i]));
        lemma_without_read(leaving.datalog.native[i], id);
    }
}

/// When a connection ends, no other is forgotten.
proof fn lemma_disconnected_minds(
    state: RouterState,
    id: ConnectionId,
    execute_will: bool,
    moment: Moment,
    other: ConnectionId,
)
    requires
        state.inv(),
        state.notifications.len() == 0,
        state.disconnected(id, execute_will, moment).fits(),
        state.minds(other) || (other == id && state.live(id)),
        all_read_through(state.datalog.native),
    ensures
        state.disconnected(id, execute_will, moment).minds(other),
        all_read_through(state.disconnected(id, execute_will, moment).datalog.native),
{
    lemma_disconnected_read(state, id, execute_will, moment);
    if state.live(id) {
        let leaving = state.leaving(id, execute_will, moment.now);
        lemma_disconnected_grows(state, id, execute_will, moment);
        state.lemma_leaving(id, execute_will, moment.now);
        lemma_has_tracker(leaving, id);
        lemma_remove_shape(leaving.connections, leaving.obufs, id);
        lemma_remove_shape(leaving.connections, leaving.scheduler.trackers, id);
        if other != id {
            lemma_leaving_minds(state, id, execute_will, moment.now, other);
            if leaving.live(other) {
                lemma_has_tracker(leaving, other);
            } else {
                assert(!leaving.connections.has(other));
                assert(!leaving.connections.remove(id).has(other));
                assert(!leaving.obufs.remove(id).has(other));
            }
        } else {
            assert(!leaving.connections.remove(id).has(id));
            assert(!leaving.obufs.remove(id).has(id));
        }
    }
}

proof fn lemma_payload_minds(
    state: RouterState,
    id: ConnectionId,
    moment: Moment,
    other: ConnectionId,
)
    requires
        state.inv(),
        state.notifications.len() == 0,
        state.payload_handled(id, moment).fits(),
        state.minds(other),
        all_read_through(state.datalog.native),
    ensures
        state.payload_handled(id, moment).minds(other),
        all_read_through(state.payload_handled(id, moment).datalog.native),
{
    if state.ibufs.has(id) {
        assert(state.connections.has(id));
        let start = state.turn(id);
        let packets = state.ibufs.at(id).buffer;
        state.lemma_with_incoming(
            id,
            IncomingState { buffer: Seq::empty(), ..state.ibufs.at(id) },
        );
        let done = start.packets(id, packets, moment.now);
        let acked = if done.force_ack {
            done.state.rescheduled(id, ScheduleReason::FreshData)
        } else {
            done.state
        };
        let told = if done.new_data {
            acked.settled()
        } else {
            acked
        };
        lemma_disconnected_grows(told, id, done.execute_will, moment);
        lemma_packets(start, id, packets, moment.now);
        lemma_packets_minds(start, id, packets, moment.now, other);
        done.state.lemma_rescheduled(id, ScheduleReason::FreshData);
        acked.lemma_settled();
        if done.state.minds(other) {
            lemma_rescheduled_minds(done.state, id, ScheduleReason::FreshData, other);
            lemma_settled_minds(acked, other);
        }
        if done.disconnect {
            lemma_disconnected_minds(told, id, done.execute_will, moment, other);
        }
    }
}

proof fn lemma_connected_minds(
    state: RouterState,
    connection: ConnectionState,
    incoming: IncomingState,
    outgoing: OutgoingState,
    moment: Moment,
    other: ConnectionId,
)
    requires
        state.inv(),
        state.notifications.len() == 0,
        state.connected(connection, incoming, outgoing, moment).fits(),
        state.minds(other),
        all_read_through(state.datalog.native),
    ensures
        state.connected(connection, incoming, outgoing, moment).minds(other),
        all_read_through(state.connected(connection, incoming, outgoing, moment).datalog.native),
{
    let client_id = outgoing.client_id;
    if clientid_valid(client_id) {
        let cleared = state.without_duplicate(client_id, moment);
        state.lemma_without_duplicate(client_id, moment);
        if state.connection_map.contains_key(client_id) {
            lemma_disconnected_minds(
                state,
                state.connection_map[client_id],
                true,
                moment,
                other,
            );
        }
        if cleared.connections.count() < cleared.config.max_connections {
            let saved = match retrieved(cleared.graveyard, client_id, moment.now) {
                Some(saved) => saved,
                None => SavedStateView::new(client_id),
            };
            let id = cleared.connections.next_key();
            let tracker = if connection.clean {
                TrackerState::new(client_id)
            } else {
                saved.tracker
            };
            assert(tracker.status == Status::Paused(PauseReason::Busy)) by {
                if retrieved(cleared.graveyard, client_id, moment.now) is Some {
                    assert(cleared.graveyard.contains_key(client_id));
                }
            }
            cleared.lemma_same_keys();
            lemma_insert_shape(cleared.connections, cleared.obufs, connection, outgoing);
            lemma_insert_shape(
                cleared.connections,
                cleared.scheduler.trackers,
                connection,
                tracker,
            );
            let added = cleared.scheduler.add(tracker);
            lemma_set_shape(
                added.trackers,
                id,
                TrackerState { status: Status::Ready, ..added.trackers.at(id) },
            );
            let after = cleared.admitted(connection, incoming, outgoing, moment);
            if after.live(other) && other != id {
                assert(cleared.live(other));
                lemma_has_tracker(cleared, other);
                assert(added.trackers.has(other));
            }
        }
    }
}

/// A router that is new has nobody to forget, and no event makes it forget
/// anyone: whoever may have something to read afterwards is queued, or its link
/// has been told to say when there is room, or its client owes acks.
pub proof fn law_no_event_forgets_anybody(
    state: RouterState,
    id: ConnectionId,
    event: Event,
    moment: Moment,
    router_id: usize,
    config: RouterConfig,
)
    requires
        state.inv(),
        state.notifications.len() == 0,
        state.accepts(id, event),
        state.forgets_nobody(),
        state.after_event(id, event, moment).fits(),
    ensures
        state.after_event(id, event, moment).forgets_nobody(),
        RouterState::new(router_id, config).forgets_nobody(),
{
    let after = state.after_event(id, event, moment);
    assert forall|other: ConnectionId| #[trigger] after.minds(other) by {
        lemma_event_minds(state, id, event, moment, other);
    }
    lemma_event_minds(state, id, event, moment, id);
}

proof fn lemma_event_minds(
    state: RouterState,
    id: ConnectionId,
    event: Event,
    moment: Moment,
    other: ConnectionId,
)
    requires
        state.inv(),
        state.notifications.len() == 0,
        state.accepts(id, event),
        state.forgets_nobody(),
        state.after_event(id, event, moment).fits(),
    ensures
        state.after_event(id, event, moment).minds(other),
        all_read_through(state.after_event(id, event, moment).datalog.native),
{
    assert(state.minds(other));
    match event {
        Event::Connect { connection, incoming, outgoing } => {
            lemma_connected_minds(state, connection@, incoming@, outgoing@, moment, other);
        },
        Event::DeviceData => {
            lemma_payload_minds(state, id, moment, other);
        },
        Event::Disconnect { execute_will } => {
            lemma_disconnected_minds(state, id, execute_will, moment, other);
        },
        Event::Ready => {
            lemma_rescheduled_minds(state, id, ScheduleReason::Ready, other);
        },
        Event::Shadow(request) => {
            let row = with_shadow(state.datalog, state.obufs.at(id), request.filter@);
            lemma_set_shape(state.obufs, id, row);
            let before = state.obufs.at(id).buffer;
            if before.contains(NotificationView::Unschedule) {
                let j = choose|j: int|
                    0 <= j < before.len() && before[j] == NotificationView::Unschedule;
                assert(row.buffer[j] == NotificationView::Unschedule);
            }
        },
        _ => {},
    }
}

/// Requests that are put aside in a turn have read their logs to the end.
proof fn lemma_served_read(
    state: RouterState,
    id: ConnectionId,
    requests: Seq<DataRequest>,
    n: nat,
    now: Instant,
)
    requires
        state.inv(),
        state.live(id),
        requests_ok(state.datalog.native, requests),
        all_read_through(state.datalog.native),
    ensures
        all_read_through(state.served(id, requests, n, now).datalog.native),
    decreases n,
{
    if n > 0 && requests.len() > 0 {
        let rest = requests.subrange(1, requests.len() as int);
        let out = serve(requests[0], state.datalog, state.obufs.at(id), state.alertlog, now);
        let next = RouterState {
            obufs: state.obufs.set(id, out.outgoing),
            alertlog: out.alertlog,
            ..state
        };
        lemma_step(state, id, requests, now);
        law_request_is_served(
            state.datalog,
            state.alertlog,
            state.obufs.at(id),
            requests[0],
            now,
            0,
        );
        match out.status {
            ConsumeStatus::FilterCaughtup => {
                let aside = RouterState { datalog: next.datalog.park(id, out.request), ..next };
                let idx = requests[0].filter_idx as int;
                let native = aside.datalog.native;
                assert forall|i: int| 0 <= i < native.len() implies read_through(
                    #[trigger] native[i],
                ) by {
                    assert(read_through(state.datalog.native[i]));
                }
                lemma_served_read(aside, id, rest, (n - 1) as nat, now);
            },
            ConsumeStatus::PartialRead => {
                lemma_served_read(next, id, rest.push(out.request), (n - 1) as nat, now);
            },
            _ => {},
        }
    }
}

/// A turn makes nobody forgotten.
pub proof fn law_no_turn_forgets_anybody(state: RouterState, now: Instant)
    requires
        state.inv(),
        state.forgets_nobody(),
    ensures
        state.consumed(now).forgets_nobody(),
{
    let after = state.consumed(now);
    let queue = state.scheduler.readyqueue;
    if queue.len() > 0 {
        let id = queue[0];
        if state.live(id) {
            lemma_before_serving(state);
            lemma_served_read(
                before_serving(state),
                id,
                state.scheduler.polled_requests(),
                MAX_SCHEDULE_ITERATIONS as nat,
                now,
            );
            assert forall|other: ConnectionId| #[trigger] after.minds(other) by {
                assert(state.minds(other));
                lemma_turn_minds(state, now, other);
            }
        } else {
            assert(state.scheduler.trackers.has(id) == state.connections.has(id));
            assert(state.obufs.has(id) == state.connections.has(id));
            assert forall|other: ConnectionId| #[trigger] after.minds(other) by {
                assert(state.minds(other));
            }
        }
    }
}

proof fn lemma_turn_minds(state: RouterState, now: Instant, other: ConnectionId)
    requires
        state.inv(),
        state.scheduler.readyqueue.len() > 0,
        state.live(state.scheduler.readyqueue[0]),
        state.minds(other),
    ensures
        state.consumed(now).minds(other),
{
    let id = state.scheduler.readyqueue[0];
    let after = state.consumed(now);
    law_turn_is_ones_own(state, now, other, 0);
    if other == id {
        let before = state.obufs.at(id);
        let outbox = after.obufs.at(id);
        law_turn_ends(state, now, 0);
        lemma_before_serving(state);
        let tracker = state.scheduler.trackers.at(id);
        if tracker.status == Status::Paused(PauseReason::Busy) {
            let j = choose|j: int|
                0 <= j < before.buffer.len() && before.buffer[j] == NotificationView::Unschedule;
            law_turn_is_ones_own(state, now, other, j);
            assert(outbox.buffer[j] == NotificationView::Unschedule);
        }
        if tracker.status == Status::Paused(PauseReason::Caughtup) {
            let start = before_serving(state);
            lemma_set_shape(start.scheduler.trackers, id, start.scheduler.trackers.at(id));
        }
        if outbox.buffer.len() > 0 && outbox.buffer.last() is Unschedule {
            assert(outbox.buffer[outbox.buffer.len() - 1] == NotificationView::Unschedule);
        }
    }
}

/// A request that is waited with stands in a log.
proof fn lemma_parked_where(
    native: Seq<FilterLogState<LogEntry>>,
    id: ConnectionId,
    request: DataRequest,
) -> (found: (int, int))
    requires
        parked(native, id).contains(request),
    ensures
        0 <= found.0 < native.len(),
        0 <= found.1 < native[found.0].waiters.len(),
        native[found.0].waiters[found.1] == (id, request),
    decreases native.len(),
{
    let all = parked(native, id);
    let at = choose|at: int| 0 <= at < all.len() && all[at] == request;
    let before = parked(native.drop_last(), id);
    if at < before.len() {
        assert(before[at] == request);
        lemma_parked_where(native.drop_last(), id, request)
    } else {
        let here = requests_of(native.last().waiters, id);
        assert(here[at - before.len()] == request);
        (native.len() - 1, lemma_waiter_where(native.last().waiters, id, request))
    }
}

proof fn lemma_waiter_where(
    waiters: Seq<(ConnectionId, DataRequest)>,
    id: ConnectionId,
    request: DataRequest,
) -> (found: int)
    requires
        requests_of(waiters, id).contains(request),
    ensures
        0 <= found < waiters.len(),
        waiters[found] == (id, request),
    decreases waiters.len(),
{
    if waiters.last() == (id, request) {
        waiters.len() - 1
    } else {
        let all = requests_of(waiters, id);
        let before = requests_of(waiters.drop_last(), id);
        let at = choose|at: int| 0 <= at < all.len() && all[at] == request;
        assert(before[at] == request);
        lemma_waiter_where(waiters.drop_last(), id, request)
    }
}

/// A connection for which there is something to read, wherever its request is,
/// is ready and has its turn coming, unless its link has yet to take what is in
/// its outbox, with the word to say when there is room, or its client owes as
/// many acks as may be.
pub proof fn law_who_has_something_to_read_has_a_turn_coming(
    state: RouterState,
    id: ConnectionId,
    request: DataRequest,
    now: Instant,
)
    requires
        state.inv(),
        state.forgets_nobody(),
        state.live(id),
        state.scheduler.trackers.at(id).data_requests.contains(request) || parked(
            state.datalog.native,
            id,
        ).contains(request),
        unread(state.datalog.native, request, now).len() > 0,
        !state.obufs.at(id).buffer.contains(NotificationView::Unschedule),
        state.obufs.at(id).inflight.len() < MAX_INFLIGHT,
    ensures
        state.scheduler.trackers.at(id).status is Ready,
        state.scheduler.readyqueue.contains(id),
{
    assert(state.minds(id));
    lemma_has_tracker(state, id);
    let native = state.datalog.native;
    if parked(native, id).contains(request) {
        let (i, k) = lemma_parked_where(native, id, request);
        let here = native[i];
        assert(read_through(here));
        assert(here.log.first_read(here.waiters[k].1.cursor) == here.log.end());
        assert(waiters_ok(native, state.obufs, here.waiters));
        assert(at_home(here));
        assert(native[request.filter_idx as int].filter == here.filter);
        assert(here.log.read(request.cursor, u64::MAX) =~= Seq::empty());
        reveal(Seq::filter);
    }
}

/// When the link of a connection has taken all that was there, its connection is
/// not forgotten, and where the link had been told to say so and does, the
/// connection has its turn coming if there is anything to be had.
pub proof fn law_link_that_is_ready_is_not_forgotten(
    state: RouterState,
    id: ConnectionId,
    moment: Moment,
)
    requires
        state.inv(),
        state.forgets_nobody(),
        state.live(id),
    ensures
        !state.obufs.at(id).buffer.contains(NotificationView::Unschedule) ==> state.collected(
            id,
        ).forgets_nobody(),
        state.collected(id).after_event(id, Event::Ready, moment).forgets_nobody(),
        state.scheduler.trackers.at(id).status == Status::Paused(PauseReason::Busy)
            ==> state.collected(id).after_event(
            id,
            Event::Ready,
            moment,
        ).scheduler.readyqueue.contains(id),
{
    let row = OutgoingState { buffer: Seq::empty(), woken: false, ..state.obufs.at(id) };
    lemma_set_shape(state.obufs, id, row);
    lemma_has_tracker(state, id);
    lemma_set_shape(
        state.scheduler.trackers,
        id,
        TrackerState { status: Status::Ready, ..state.scheduler.trackers.at(id) },
    );
    let collected = state.collected(id);
    let after = collected.after_event(id, Event::Ready, moment);
    assert forall|other: ConnectionId|
        !state.obufs.at(id).buffer.contains(
            NotificationView::Unschedule,
        ) implies #[trigger] collected.minds(other) by {
        assert(state.minds(other));
    }
    assert forall|other: ConnectionId| #[trigger] after.minds(other) by {
        assert(state.minds(other));
        if state.live(other) {
            lemma_has_tracker(state, other);
        }
    }
    let queue = state.scheduler.readyqueue;
    assert(queue.push(id)[queue.len() as int] == id);
}

/// Whether the place in a queue is kept.
pub open spec fn keeps_place(
    before: Seq<ConnectionId>,
    after: Seq<ConnectionId>,
    k: int,
) -> bool {
    0 <= k < before.len() ==> k < after.len() && after[k] == before[k]
}

proof fn lemma_notified_queue(
    scheduler: SchedulerState,
    notifications: Seq<(ConnectionId, DataRequest)>,
    k: int,
)
    ensures
        keeps_place(
            scheduler.readyqueue,
            notified(scheduler, notifications).readyqueue,
            k,
        ),
    decreases notifications.len(),
{
    if notifications.len() > 0 {
        lemma_notified_queue(scheduler, notifications.drop_last(), k);
    }
}

proof fn lemma_subscribing_queue(
    from: Subscribing,
    id: ConnectionId,
    filters: Seq<Filter>,
    k: int,
)
    ensures
        keeps_place(
            from.state.scheduler.readyqueue,
            from.filters(id, filters).state.scheduler.readyqueue,
            k,
        ),
    decreases filters.len(),
{
    if filters.len() > 0 {
        lemma_subscribing_queue(from, id, filters.drop_last(), k);
    }
}

proof fn lemma_unsubscribing_queue(
    from: Unsubscribing,
    id: ConnectionId,
    filters: Seq<String>,
    pkid: u16,
)
    ensures
        from.filters(id, filters, pkid).state.scheduler.readyqueue
            == from.state.scheduler.readyqueue,
    decreases filters.len(),
{
    if filters.len() > 0 {
        lemma_unsubscribing_queue(from, id, filters.drop_last(), pkid);
    }
}

proof fn lemma_packets_queue(
    turn: Turn,
    id: ConnectionId,
    packets: Seq<Packet>,
    now: Instant,
    k: int,
)
    ensures
        keeps_place(
            turn.state.scheduler.readyqueue,
            turn.packets(id, packets, now).state.scheduler.readyqueue,
            k,
        ),
    decreases packets.len(),
{
    if packets.len() > 0 {
        lemma_packets_queue(turn, id, packets.drop_last(), now, k);
        let before = turn.packets(id, packets.drop_last(), now);
        match packets.last() {
            Packet::Subscribe(subscribe) => {
                lemma_subscribing_queue(
                    Subscribing { state: before.state, codes: Seq::empty(), refused: false },
                    id,
                    subscribe.filters@,
                    k,
                );
            },
            Packet::Unsubscribe(unsubscribe) => {
                lemma_unsubscribing_queue(
                    Unsubscribing { state: before.state, any: false },
                    id,
                    unsubscribe.filters@,
                    unsubscribe.pkid,
                );
            },
            _ => {},
        }
    }
}

proof fn lemma_disconnected_queue(
    state: RouterState,
    id: ConnectionId,
    execute_will: bool,
    moment: Moment,
    k: int,
)
    ensures
        keeps_place(
            state.scheduler.readyqueue,
            state.disconnected(id, execute_will, moment).scheduler.readyqueue,
            k,
        ),
{
    let alerted = state.with_alert(AlertView::Disconnect(state.obufs.at(id).client_id));
    let connection = alerted.connections.at(id);
    if let Some(will) = connection.last_will {
        let given = ConnectionState { last_will: None, ..connection };
        let taken = RouterState { connections: alerted.connections.set(id, given), ..alerted };
        let published = taken.published(id, will_publish(will), None, moment.now);
        lemma_notified_queue(published.scheduler, published.notifications, k);
    }
}

/// An event takes nobody's place in the queue away.
pub proof fn law_events_keep_the_queue(
    state: RouterState,
    id: ConnectionId,
    event: Event,
    moment: Moment,
    k: int,
)
    requires
        0 <= k < state.scheduler.readyqueue.len(),
    ensures
        ({
            let after = state.after_event(id, event, moment).scheduler.readyqueue;
            k < after.len() && after[k] == state.scheduler.readyqueue[k]
        }),
{
    let after = state.after_event(id, event, moment);
    assert(keeps_place(state.scheduler.readyqueue, after.scheduler.readyqueue, k)) by {
        match event {
            Event::Connect { connection, incoming, outgoing } => {
                let client_id = outgoing@.client_id;
                if state.connection_map.contains_key(client_id) {
                    lemma_disconnected_queue(
                        state,
                        state.connection_map[client_id],
                        true,
                        moment,
                        k,
                    );
                }
            },
            Event::DeviceData => {
                let start = state.turn(id);
                let packets = state.ibufs.at(id).buffer;
                lemma_packets_queue(start, id, packets, moment.now, k);
                let done = start.packets(id, packets, moment.now);
                let acked = if done.force_ack {
                    done.state.rescheduled(id, ScheduleReason::FreshData)
                } else {
                    done.state
                };
                let told = if done.new_data {
                    acked.settled()
                } else {
                    acked
                };
                lemma_notified_queue(acked.scheduler, acked.notifications, k);
                lemma_disconnected_queue(told, id, done.execute_will, moment, k);
            },
            Event::Disconnect { execute_will } => {
                lemma_disconnected_queue(state, id, execute_will, moment, k);
            },
            _ => {},
        }
    }
}

/// With each turn everybody in the queue moves up by one place, so that all have
/// their turn, one after the other.
pub proof fn law_turns_come_in_order(state: RouterState, now: Instant, k: int)
    requires
        state.inv(),
        0 < k < state.scheduler.readyqueue.len(),
    ensures
        ({
            let after = state.consumed(now).scheduler.readyqueue;
            k - 1 < after.len() && after[k - 1] == state.scheduler.readyqueue[k]
        }),
{
    if state.live(state.scheduler.readyqueue[0]) {
        law_turn_ends(state, now, 0);
    } else {
        law_turn_of_nobody(state, now);
    }
}

/// What a link hands in goes to the end of the inbox of its connection, and
/// nothing else changes. What it takes out is all that was there, and what was
/// sent stays remembered until it is acked.
pub proof fn law_link_hands_in_and_takes_out(
    state: RouterState,
    id: ConnectionId,
    packet: Packet,
    other: ConnectionId,
)
    requires
        state.inv(),
        state.live(id),
        state.live(other),
    ensures
        ({
            let given = state.deposited(id, packet);
            let taken = state.collected(id);
            &&& given == RouterState { ibufs: given.ibufs, ..state }
            &&& given.ibufs.at(id).buffer == state.ibufs.at(id).buffer.push(packet)
            &&& given.ibufs.at(id).client_id == state.ibufs.at(id).client_id
            &&& given.ibufs.at(id).meter == state.ibufs.at(id).meter
            &&& other != id ==> given.ibufs.at(other) == state.ibufs.at(other)
            &&& taken == RouterState { obufs: taken.obufs, ..state }
            &&& taken.obufs.at(id).buffer.len() == 0
            &&& !taken.obufs.at(id).woken
            &&& taken.obufs.at(id).inflight == state.obufs.at(id).inflight
            &&& taken.obufs.at(id).last_pkid == state.obufs.at(id).last_pkid
            &&& taken.obufs.at(id).client_id == state.obufs.at(id).client_id
            &&& taken.obufs.at(id).meter == state.obufs.at(id).meter
            &&& other != id ==> taken.obufs.at(other) == state.obufs.at(other)
        }),
{
    assert(state.connections.has(id) && state.connections.has(other));
    assert(state.ibufs.has(id) && state.ibufs.has(other));
    let incoming = state.ibufs.at(id);
    let outgoing = state.obufs.at(id);
    lemma_set_shape(
        state.ibufs,
        id,
        IncomingState { buffer: incoming.buffer.push(packet), ..incoming },
    );
    lemma_set_shape(
        state.obufs,
        id,
        OutgoingState { buffer: Seq::empty(), woken: false, ..outgoing },
    );
}

/// A turn leaves a router in order.
proof fn lemma_served_inv(
    state: RouterState,
    id: ConnectionId,
    requests: Seq<DataRequest>,
    n: nat,
    now: Instant,
)
    requires
        state.inv(),
        state.live(id),
        requests_ok(state.datalog.native, requests),
    ensures
        state.served(id, requests, n, now).inv(),
    decreases n,
{
    let native = state.datalog.native;
    if n == 0 {
        lemma_trackv(native, state.scheduler, id, requests);
        state.lemma_with_scheduler(state.scheduler.trackv(id, requests));
    } else if requests.len() == 0 {
        lemma_pause(native, state.scheduler, id, PauseReason::Caughtup);
        state.lemma_with_scheduler(state.scheduler.pause(id, PauseReason::Caughtup));
    } else {
        let rest = requests.subrange(1, requests.len() as int);
        let out = serve(requests[0], state.datalog, state.obufs.at(id), state.alertlog, now);
        let next = RouterState {
            obufs: state.obufs.set(id, out.outgoing),
            alertlog: out.alertlog,
            ..state
        };
        lemma_step(state, id, requests, now);
        match out.status {
            ConsumeStatus::BufferFull => {
                lemma_paused_inv(next, id, rest.push(out.request), PauseReason::Busy);
            },
            ConsumeStatus::InflightFull => {
                lemma_paused_inv(next, id, rest.push(out.request), PauseReason::InflightFull);
            },
            ConsumeStatus::FilterCaughtup => {
                let aside = RouterState { datalog: next.datalog.park(id, out.request), ..next };
                lemma_served_inv(aside, id, rest, (n - 1) as nat, now);
            },
            ConsumeStatus::PartialRead => {
                lemma_served_inv(next, id, rest.push(out.request), (n - 1) as nat, now);
            },
        }
    }
}

proof fn lemma_paused_inv(
    state: RouterState,
    id: ConnectionId,
    requests: Seq<DataRequest>,
    reason: PauseReason,
)
    requires
        state.inv(),
        requests_ok(state.datalog.native, requests),
    ensures
        state.paused(id, requests, reason).inv(),
{
    let native = state.datalog.native;
    let paused = state.scheduler.pause(id, reason);
    lemma_pause(native, state.scheduler, id, reason);
    state.lemma_with_scheduler(paused);
    lemma_trackv(native, paused, id, requests);
    (RouterState { scheduler: paused, ..state }).lemma_with_scheduler(
        paused.trackv(id, requests),
    );
}

proof fn lemma_consumed_inv(state: RouterState, now: Instant)
    requires
        state.inv(),
    ensures
        state.consumed(now).inv(),
{
    if state.scheduler.readyqueue.len() > 0 {
        let id = state.scheduler.readyqueue[0];
        if state.live(id) {
            lemma_before_serving(state);
            lemma_served_inv(
                before_serving(state),
                id,
                state.scheduler.polled_requests(),
                MAX_SCHEDULE_ITERATIONS as nat,
                now,
            );
        } else {
            lemma_polled(state.datalog.native, state.scheduler);
            state.lemma_with_scheduler(state.scheduler.polled());
        }
    }
}

/// Turns leave a router in order and forget nobody, and after as many turns as
/// there are others in front of it in the queue a connection has its own.
pub proof fn law_everybody_has_a_turn(state: RouterState, now: Instant, n: nat, k: int)
    requires
        state.inv(),
    ensures
        ({
            let after = state.consumed_times(n, now);
            &&& after.inv()
            &&& state.forgets_nobody() ==> after.forgets_nobody()
            &&& n <= k < state.scheduler.readyqueue.len() ==> {
                &&& k - n < after.scheduler.readyqueue.len()
                &&& after.scheduler.readyqueue[k - n] == state.scheduler.readyqueue[k]
            }
        }),
    decreases n,
{
    if n > 0 {
        let before = state.consumed_times((n - 1) as nat, now);
        law_everybody_has_a_turn(state, now, (n - 1) as nat, k);
        lemma_consumed_inv(before, now);
        if state.forgets_nobody() {
            law_no_turn_forgets_anybody(before, now);
        }
        if n <= k < state.scheduler.readyqueue.len() {
            law_turns_come_in_order(before, now, k - n + 1);
        }
    }
}

} // verus!
