//! What a client is to be answered gets to it: a connection for which acks are
//! pending is not left waiting.
use super::alertlog::AlertView;
use super::delivery::with_shadow;
use super::events::Event;
use super::graveyard::{retrieved, SavedStateView};
use super::invariants::{lemma_insert_shape, lemma_remove_shape, lemma_set_shape};
use super::iobufs::{IncomingState, OutgoingState, MAX_INFLIGHT};
use super::liveness::lemma_has_tracker;
use super::logs::{log_index, AckLogState};
use super::messages::{
    AckView, ConnectionId, ConnectionState, DataRequest, NotificationView, RouterConfig,
};
use super::scheduler::{PauseReason, ScheduleReason, SchedulerState, Status, TrackerState};
use super::single::{
    lemma_disconnected_grows, lemma_packet_grows, lemma_packets, lemma_subscribing,
    lemma_subscribing_grows, lemma_unsubscribing,
};
use super::state::{notified, will_publish, RouterState, Subscribing, Turn, Unsubscribing};
use super::turns::{law_turn_is_ones_own, law_turn_of_nobody};
use super::validate::clientid_valid;
use crate::clock::Moment;
use crate::protocol::{
    Filter, Packet, PubAck, PubAckReason, PubComp, PubCompReason, PubRel, PubRelReason,
};
use std::time::Instant;
use vstd::prelude::*;

verus! {

/// Whether a connection for which acks are pending does not just wait for
/// publishes. No publish is kept back for a release: those that would ask for it
/// are refused.
pub open spec fn heeded(tracker: TrackerState, acks: AckLogState) -> bool {
    &&& acks.recorded.len() == 0
    &&& acks.committed.len() > 0 ==> tracker.status != Status::Paused(PauseReason::Caughtup)
}

impl RouterState {
    /// Whether the acks of a connection, if there is one, are heeded.
    pub open spec fn heeds(self, id: ConnectionId) -> bool {
        self.live(id) ==> heeded(self.scheduler.trackers.at(id), self.ackslog.at(id))
    }

    pub open spec fn heeds_all(self) -> bool {
        forall|id: ConnectionId| #[trigger] self.heeds(id)
    }
}

/// Whether a connection is as it was, or ready.
pub open spec fn at_least(before: TrackerState, after: TrackerState) -> bool {
    after.status == before.status || after.status is Ready
}

proof fn lemma_track_status(
    scheduler: SchedulerState,
    id: ConnectionId,
    request: DataRequest,
    reason: ScheduleReason,
    other: ConnectionId,
)
    requires
        scheduler.trackers.has(other),
    ensures
        scheduler.track(id, request).reschedule(id, reason).trackers.has(other),
        at_least(
            scheduler.trackers.at(other),
            scheduler.track(id, request).reschedule(id, reason).trackers.at(other),
        ),
{
    if scheduler.trackers.has(id) {
        let more = scheduler.trackers.at(id).register(request);
        lemma_set_shape(scheduler.trackers, id, more);
        let tracking = scheduler.track(id, request);
        assert(tracking.trackers.has(id));
        assert(tracking.trackers.has(other));
        lemma_set_shape(tracking.trackers, id, TrackerState { status: Status::Ready, ..more });
        assert(tracking.reschedule(id, reason).trackers.has(other));
    }
}

proof fn lemma_notified_status(
    scheduler: SchedulerState,
    notifications: Seq<(ConnectionId, DataRequest)>,
    other: ConnectionId,
)
    requires
        scheduler.trackers.has(other),
    ensures
        notified(scheduler, notifications).trackers.has(other),
        at_least(
            scheduler.trackers.at(other),
            notified(scheduler, notifications).trackers.at(other),
        ),
    decreases notifications.len(),
{
    if notifications.len() > 0 {
        let last = notifications.last();
        lemma_notified_status(scheduler, notifications.drop_last(), other);
        lemma_track_status(
            notified(scheduler, notifications.drop_last()),
            last.0,
            last.1,
            ScheduleReason::FreshData,
            other,
        );
    }
}

proof fn lemma_settled_heeds(state: RouterState, other: ConnectionId)
    requires
        state.inv(),
        state.heeds(other),
    ensures
        state.settled().heeds(other),
{
    if state.live(other) {
        lemma_has_tracker(state, other);
        lemma_notified_status(state.scheduler, state.notifications, other);
    }
}

proof fn lemma_subscribing_heeds(
    from: Subscribing,
    id: ConnectionId,
    filters: Seq<Filter>,
    other: ConnectionId,
)
    requires
        from.state.inv(),
        from.state.live(id),
        from.filters(id, filters).state.fits(),
        from.state.live(other),
    ensures
        from.filters(id, filters).state.ackslog == from.state.ackslog,
        at_least(
            from.state.scheduler.trackers.at(other),
            from.filters(id, filters).state.scheduler.trackers.at(other),
        ),
    decreases filters.len(),
{
    if filters.len() > 0 {
        let shorter = filters.drop_last();
        let before = from.filters(id, shorter);
        let one = seq![filters.last()];
        assert(one.drop_last() =~= Seq::<Filter>::empty());
        assert(before.filters(id, one.drop_last()) == before);
        assert(before.filters(id, one) == before.filter(id, filters.last()));
        lemma_subscribing_grows(before, id, one);
        lemma_subscribing(from, id, shorter);
        lemma_subscribing_heeds(from, id, shorter, other);
        lemma_has_tracker(before.state, other);
        let filter = filters.last();
        let request = DataRequest {
            filter: filter.path,
            filter_idx: log_index(before.state.datalog.native, filter.path@),
            qos: filter.qos.spec_level(),
            cursor: before.state.datalog.next_offset(filter.path@),
            read_count: 0,
            max_count: 100,
        };
        lemma_track_status(
            before.state.scheduler,
            id,
            request,
            ScheduleReason::NewFilter,
            other,
        );
    }
}

proof fn lemma_unsubscribing_heeds(
    from: Unsubscribing,
    id: ConnectionId,
    filters: Seq<String>,
    pkid: u16,
    other: ConnectionId,
)
    requires
        from.state.inv(),
        from.state.live(id),
        from.state.live(other),
        from.state.ackslog.at(other).recorded.len() == 0,
    ensures
        ({
            let done = from.filters(id, filters, pkid);
            let before = from.state;
            &&& done.state.ackslog.at(other).recorded.len() == 0
            &&& done.state.scheduler.trackers.at(other).status
                == before.scheduler.trackers.at(other).status
            &&& other == id ==> done.any || done.state.ackslog.at(id) == before.ackslog.at(id)
            &&& other != id ==> done.state.ackslog.at(other) == before.ackslog.at(other)
        }),
    decreases filters.len(),
{
    if filters.len() > 0 {
        let shorter = filters.drop_last();
        lemma_unsubscribing_heeds(from, id, shorter, pkid, other);
        lemma_unsubscribing(from, id, shorter, pkid);
        let state = from.filters(id, shorter, pkid).state;
        let filter = filters.last()@;
        lemma_has_tracker(state, id);
        lemma_has_tracker(state, other);
        lemma_set_shape(
            state.scheduler.trackers,
            id,
            state.scheduler.trackers.at(id).unregister(filter),
        );
        lemma_set_shape(
            state.ackslog,
            id,
            state.ackslog.at(id).commit(AckView::UnsubAck(pkid, Seq::empty())),
        );
    }
}

/// Whether the acks of a connection are heeded in the middle of a batch of
/// packets: what is pending for the sender will be looked at, or the sender is to
/// go.
pub open spec fn heeds_in(turn: Turn, id: ConnectionId, other: ConnectionId) -> bool {
    &&& turn.state.live(other) && other == id ==> turn.state.ackslog.at(other).recorded.len() == 0
        || turn.disconnect
    &&& turn.state.heeds(other) || (other == id && (turn.force_ack || turn.disconnect))
}

proof fn lemma_packet_heeds(
    turn: Turn,
    id: ConnectionId,
    client_id: Seq<char>,
    packet: Packet,
    now: Instant,
    other: ConnectionId,
)
    requires
        turn.ok(id),
        turn.packet(id, client_id, packet, now).state.fits(),
        turn.state.live(other),
        heeds_in(turn, id, other),
    ensures
        heeds_in(turn.packet(id, client_id, packet, now), id, other),
{
    let state = turn.state;
    lemma_has_tracker(state, id);
    lemma_has_tracker(state, other);
    let acks = state.ackslog.at(id);
    let tracker = state.scheduler.trackers.at(id);
    if !turn.stopped {
        match packet {
            Packet::Publish(publish, _) => {
                let ack = AckView::PubAck(
                    PubAck { pkid: publish.pkid, reason: PubAckReason::Success },
                );
                lemma_set_shape(state.ackslog, id, acks.commit(ack));
            },
            Packet::Subscribe(subscribe) => {
                let from = Subscribing { state, codes: Seq::empty(), refused: false };
                lemma_subscribing_heeds(from, id, subscribe.filters@, other);
                let done = from.filters(id, subscribe.filters@);
                lemma_set_shape(
                    state.ackslog,
                    id,
                    acks.commit(AckView::SubAck(subscribe.pkid, done.codes)),
                );
            },
            Packet::Unsubscribe(unsubscribe) => {
                let from = Unsubscribing { state, any: false };
                if state.ackslog.at(other).recorded.len() == 0 {
                    lemma_unsubscribing_heeds(
                        from,
                        id,
                        unsubscribe.filters@,
                        unsubscribe.pkid,
                        other,
                    );
                }
            },
            Packet::PubAck(_) => {
                lemma_set_shape(state.obufs, id, state.obufs.at(id).acked());
                lemma_set_shape(
                    state.scheduler.trackers,
                    id,
                    TrackerState { status: Status::Ready, ..tracker },
                );
            },
            Packet::PubRec(ack) => {
                let pubrel = AckView::PubRel(
                    PubRel { pkid: ack.pkid, reason: PubRelReason::Success },
                );
                lemma_set_shape(state.obufs, id, state.obufs.at(id).acked());
                lemma_set_shape(state.ackslog, id, acks.commit(pubrel));
                lemma_set_shape(
                    state.scheduler.trackers,
                    id,
                    TrackerState { status: Status::Ready, ..tracker },
                );
            },
            Packet::PubRel(ack, None) => {
                let comp = AckView::PubComp(
                    PubComp { pkid: ack.pkid, reason: PubCompReason::Success },
                );
                lemma_set_shape(state.ackslog, id, acks.commit(comp).released());
            },
            Packet::PingReq => {
                lemma_set_shape(state.ackslog, id, acks.commit(AckView::PingResp));
            },
            _ => {},
        }
    }
}

proof fn lemma_packets_heeds(
    turn: Turn,
    id: ConnectionId,
    packets: Seq<Packet>,
    now: Instant,
    other: ConnectionId,
)
    requires
        turn.ok(id),
        turn.packets(id, packets, now).state.fits(),
        turn.state.live(other),
        turn.state.heeds(other),
    ensures
        heeds_in(turn.packets(id, packets, now), id, other),
        turn.packets(id, packets, now).state.live(other),
    decreases packets.len(),
{
    if packets.len() > 0 {
        let shorter = packets.drop_last();
        let before = turn.packets(id, shorter, now);
        let client_id = turn.state.ibufs.at(id).client_id;
        lemma_packet_grows(before, id, client_id, packets.last(), now);
        lemma_packets(turn, id, shorter, now);
        lemma_packets_heeds(turn, id, shorter, now, other);
        lemma_packet_heeds(before, id, client_id, packets.last(), now, other);
        lemma_packet_live(before, id, client_id, packets.last(), now, other);
    }
}

/// Nobody leaves in the middle of a batch of packets.
proof fn lemma_packet_live(
    turn: Turn,
    id: ConnectionId,
    client_id: Seq<char>,
    packet: Packet,
    now: Instant,
    other: ConnectionId,
)
    requires
        turn.ok(id),
        turn.packet(id, client_id, packet, now).state.fits(),
    ensures
        turn.packet(id, client_id, packet, now).state.live(other) == turn.state.live(other),
{
    let state = turn.state;
    if !turn.stopped {
        match packet {
            Packet::Subscribe(subscribe) => {
                let from = Subscribing { state, codes: Seq::empty(), refused: false };
                lemma_subscribing(from, id, subscribe.filters@);
                lemma_subscribing_obufs(from, id, subscribe.filters@);
            },
            Packet::Unsubscribe(unsubscribe) => {
                let from = Unsubscribing { state, any: false };
                lemma_unsubscribing_obufs(from, id, unsubscribe.filters@, unsubscribe.pkid);
            },
            Packet::PubAck(_) => {
                lemma_set_shape(state.obufs, id, state.obufs.at(id).acked());
                assert(state.obufs.has(other) == turn.ack(id, 0).state.obufs.has(other));
            },
            Packet::PubRec(_) => {
                lemma_set_shape(state.obufs, id, state.obufs.at(id).acked());
                assert(state.obufs.has(other) == turn.ack(id, 0).state.obufs.has(other));
            },
            _ => {},
        }
    }
}

proof fn lemma_subscribing_obufs(from: Subscribing, id: ConnectionId, filters: Seq<Filter>)
    ensures
        from.filters(id, filters).state.obufs == from.state.obufs,
    decreases filters.len(),
{
    if filters.len() > 0 {
        lemma_subscribing_obufs(from, id, filters.drop_last());
    }
}

proof fn lemma_unsubscribing_obufs(
    from: Unsubscribing,
    id: ConnectionId,
    filters: Seq<String>,
    pkid: u16,
)
    ensures
        from.filters(id, filters, pkid).state.obufs == from.state.obufs,
    decreases filters.len(),
{
    if filters.len() > 0 {
        lemma_unsubscribing_obufs(from, id, filters.drop_last(), pkid);
    }
}

proof fn lemma_disconnected_heeds(
    state: RouterState,
    id: ConnectionId,
    execute_will: bool,
    moment: Moment,
    other: ConnectionId,
)
    requires
        state.inv(),
        state.notifications.len() == 0,
        state.disconnected(id, execute_will, moment).fits(),
        state.heeds(other) || (other == id && state.live(id)),
    ensures
        state.disconnected(id, execute_will, moment).heeds(other),
{
    if state.live(id) {
        let leaving = state.leaving(id, execute_will, moment.now);
        lemma_disconnected_grows(state, id, execute_will, moment);
        state.lemma_leaving(id, execute_will, moment.now);
        lemma_has_tracker(leaving, id);
        lemma_remove_shape(leaving.connections, leaving.obufs, id);
        lemma_remove_shape(leaving.connections, leaving.ackslog, id);
        lemma_remove_shape(leaving.connections, leaving.scheduler.trackers, id);
        let after = state.disconnected(id, execute_will, moment);
        assert(leaving.connections.remove(id).has(other) == leaving.obufs.remove(id).has(other));
        if after.live(other) {
            assert(other != id);
            assert(leaving.connections.has(other));
            assert(leaving.obufs.has(other));
            lemma_has_tracker(leaving, other);
            let alert = AlertView::Disconnect(state.obufs.at(id).client_id);
            let alerted = state.with_alert(alert);
            state.lemma_with_alert(alert);
            lemma_has_tracker(alerted, id);
            let connection = alerted.connections.at(id);
            if let Some(will) = connection.last_will {
                let given = ConnectionState { last_will: None, ..connection };
                alerted.lemma_with_connection(id, given);
                let taken = RouterState {
                    connections: alerted.connections.set(id, given),
                    ..alerted
                };
                if execute_will {
                    taken.lemma_published(id, will_publish(will), None, moment.now);
                    lemma_settled_heeds(
                        taken.published(id, will_publish(will), None, moment.now),
                        other,
                    );
                }
            }
        }
    }
}

proof fn lemma_payload_heeds(
    state: RouterState,
    id: ConnectionId,
    moment: Moment,
    other: ConnectionId,
)
    requires
        state.inv(),
        state.notifications.len() == 0,
        state.payload_handled(id, moment).fits(),
        state.heeds(other),
    ensures
        state.payload_handled(id, moment).heeds(other),
{
    if state.ibufs.has(id) {
        assert(state.connections.has(id));
        let start = state.turn(id);
        let packets = state.ibufs.at(id).buffer;
        state.lemma_with_incoming(
            id,
            IncomingState { buffer: Seq::empty(), ..state.ibufs.at(id) },
        );
        let done = start.packets(id, packets, moment.now);
        let acked = if done.force_ack {
            done.state.rescheduled(id, ScheduleReason::FreshData)
        } else {
            done.state
        };
        let told = if done.new_data {
            acked.settled()
        } else {
            acked
        };
        lemma_disconnected_grows(told, id, done.execute_will, moment);
        lemma_packets(start, id, packets, moment.now);
        lemma_packets_live(start, id, packets, moment.now, other);
        done.state.lemma_rescheduled(id, ScheduleReason::FreshData);
        acked.lemma_settled();
        lemma_has_tracker(done.state, id);
        lemma_set_shape(
            done.state.scheduler.trackers,
            id,
            TrackerState { status: Status::Ready, ..done.state.scheduler.trackers.at(id) },
        );
        if start.state.live(other) {
            lemma_packets_heeds(start, id, packets, moment.now, other);
            lemma_has_tracker(done.state, other);
            if acked.heeds(other) {
                lemma_settled_heeds(acked, other);
            }
        }
        if done.disconnect {
            lemma_disconnected_heeds(told, id, done.execute_will, moment, other);
        }
    }
}

proof fn lemma_packets_live(
    turn: Turn,
    id: ConnectionId,
    packets: Seq<Packet>,
    now: Instant,
    other: ConnectionId,
)
    requires
        turn.ok(id),
        turn.packets(id, packets, now).state.fits(),
    ensures
        turn.packets(id, packets, now).state.live(other) == turn.state.live(other),
    decreases packets.len(),
{
    if packets.len() > 0 {
        let shorter = packets.drop_last();
        let before = turn.packets(id, shorter, now);
        let client_id = turn.state.ibufs.at(id).client_id;
        lemma_packet_grows(before, id, client_id, packets.last(), now);
        lemma_packets(turn, id, shorter, now);
        lemma_packets_live(turn, id, shorter, now, other);
        lemma_packet_live(before, id, client_id, packets.last(), now, other);
    }
}

proof fn lemma_connected_heeds(
    state: RouterState,
    connection: ConnectionState,
    incoming: IncomingState,
    outgoing: OutgoingState,
    moment: Moment,
    other: ConnectionId,
)
    requires
        state.inv(),
        state.notifications.len() == 0,
        state.connected(connection, incoming, outgoing, moment).fits(),
        state.heeds(other),
    ensures
        state.connected(connection, incoming, outgoing, moment).heeds(other),
{
    let client_id = outgoing.client_id;
    if clientid_valid(client_id) {
        let cleared = state.without_duplicate(client_id, moment);
        state.lemma_without_duplicate(client_id, moment);
        if state.connection_map.contains_key(client_id) {
            lemma_disconnected_heeds(
                state,
                state.connection_map[client_id],
                true,
                moment,
                other,
            );
        }
        if cleared.connections.count() < cleared.config.max_connections {
            let after = cleared.admitted(connection, incoming, outgoing, moment);
            let id = cleared.connections.next_key();
            let saved = match retrieved(cleared.graveyard, client_id, moment.now) {
                Some(saved) => saved,
                None => SavedStateView::new(client_id),
            };
            let tracker = if connection.clean {
                TrackerState::new(client_id)
            } else {
                saved.tracker
            };
            assert(tracker.status == Status::Paused(PauseReason::Busy)) by {
                if retrieved(cleared.graveyard, client_id, moment.now) is Some {
                    assert(cleared.graveyard.contains_key(client_id));
                }
            }
            cleared.lemma_same_keys();
            lemma_insert_shape(cleared.connections, cleared.obufs, connection, outgoing);
            lemma_insert_shape(
                cleared.connections,
                cleared.ackslog,
                connection,
                after.ackslog.at(id),
            );
            lemma_insert_shape(
                cleared.connections,
                cleared.scheduler.trackers,
                connection,
                tracker,
            );
            let acks = after.ackslog.at(id);
            assert(cleared.ackslog.insert(acks).at(id) == acks);
            let added = cleared.scheduler.add(tracker);
            lemma_set_shape(
                added.trackers,
                id,
                TrackerState { status: Status::Ready, ..added.trackers.at(id) },
            );
            if after.live(other) && other != id {
                assert(cleared.live(other));
                lemma_has_tracker(cleared, other);
                assert(added.trackers.has(other));
            }
        }
    }
}

proof fn lemma_event_heeds(
    state: RouterState,
    id: ConnectionId,
    event: Event,
    moment: Moment,
    other: ConnectionId,
)
    requires
        state.inv(),
        state.notifications.len() == 0,
        state.accepts(id, event),
        state.heeds(other),
        state.after_event(id, event, moment).fits(),
    ensures
        state.after_event(id, event, moment).heeds(other),
{
    if state.live(other) {
        lemma_has_tracker(state, other);
    }
    match event {
        Event::Connect { connection, incoming, outgoing } => {
            lemma_connected_heeds(state, connection@, incoming@, outgoing@, moment, other);
        },
        Event::DeviceData => {
            lemma_payload_heeds(state, id, moment, other);
        },
        Event::Disconnect { execute_will } => {
            lemma_disconnected_heeds(state, id, execute_will, moment, other);
        },
        Event::Ready => {
            if state.scheduler.trackers.has(id) {
                lemma_set_shape(
                    state.scheduler.trackers,
                    id,
                    TrackerState { status: Status::Ready, ..state.scheduler.trackers.at(id) },
                );
            }
        },
        Event::Shadow(request) => {
            lemma_set_shape(
                state.obufs,
                id,
                with_shadow(
                    state.datalog,
                    state.obufs.at(id),
                    request.filter@,
                ),
            );
        },
        _ => {},
    }
}

/// No event leaves acks lying: a connection for which some are pending does not
/// just wait for publishes. A router that is new has none.
pub proof fn law_no_event_leaves_acks_lying(
    state: RouterState,
    id: ConnectionId,
    event: Event,
    moment: Moment,
    router_id: usize,
    config: RouterConfig,
)
    requires
        state.inv(),
        state.notifications.len() == 0,
        state.accepts(id, event),
        state.heeds_all(),
        state.after_event(id, event, moment).fits(),
    ensures
        state.after_event(id, event, moment).heeds_all(),
        RouterState::new(router_id, config).heeds_all(),
{
    let after = state.after_event(id, event, moment);
    assert forall|other: ConnectionId| #[trigger] after.heeds(other) by {
        assert(state.heeds(other));
        lemma_event_heeds(state, id, event, moment, other);
    }
}

/// A turn leaves no acks lying.
pub proof fn law_no_turn_leaves_acks_lying(state: RouterState, now: Instant)
    requires
        state.inv(),
        state.heeds_all(),
    ensures
        state.consumed(now).heeds_all(),
{
    let after = state.consumed(now);
    let queue = state.scheduler.readyqueue;
    assert forall|other: ConnectionId| #[trigger] after.heeds(other) by {
        assert(state.heeds(other));
        if queue.len() > 0 && state.live(queue[0]) {
            law_turn_is_ones_own(state, now, other, 0);
        } else {
            law_turn_of_nobody(state, now);
        }
    }
}

/// Acks that are pending for a connection have their turn coming, unless its
/// link has yet to take what is in its outbox, with the word to say when there is
/// room, or its client owes as many acks as may be.
pub proof fn law_acks_have_a_turn_coming(state: RouterState, id: ConnectionId)
    requires
        state.inv(),
        state.forgets_nobody(),
        state.heeds_all(),
        state.live(id),
        state.ackslog.at(id).committed.len() > 0,
        !state.obufs.at(id).buffer.contains(NotificationView::Unschedule),
        state.obufs.at(id).inflight.len() < MAX_INFLIGHT,
    ensures
        state.scheduler.trackers.at(id).status is Ready,
        state.scheduler.readyqueue.contains(id),
{
    assert(state.minds(id));
    assert(state.heeds(id));
    lemma_has_tracker(state, id);
}

/// A client acks publishes in the order in which they were sent to it. One that
/// is to be released is taken off the list, and the client is told to release it;
/// the connection, where it was paused for want of acks, has its turn coming. Any
/// other receipt ends the connection.
pub proof fn law_receipts_are_in_order(turn: Turn, id: ConnectionId, pkid: u16)
    requires
        turn.ok(id),
        !turn.stopped,
    ensures
        ({
            let inflight = turn.state.obufs.at(id).inflight;
            let due = inflight.len() > 0 && inflight[0].0 == pkid;
            let before = turn.state;
            let acked = turn.puback(id, pkid);
            let recorded = turn.pubrec(id, pkid);
            let status = before.scheduler.trackers.at(id).status;
            &&& due ==> {
                &&& acked.state.obufs.at(id) == OutgoingState {
                    inflight: inflight.skip(1),
                    ..before.obufs.at(id)
                }
                &&& acked.state.ackslog == before.ackslog
                &&& recorded.state.obufs == acked.state.obufs
                &&& recorded.state.ackslog.at(id).committed == before.ackslog.at(
                    id,
                ).committed.push(AckView::PubRel(PubRel { pkid, reason: PubRelReason::Success }))
                &&& acked.disconnect == turn.disconnect
                &&& recorded.disconnect == turn.disconnect
                &&& status == Status::Paused(PauseReason::InflightFull) ==> {
                    &&& acked.state.scheduler.trackers.at(id).status is Ready
                    &&& acked.state.scheduler.readyqueue == before.scheduler.readyqueue.push(id)
                    &&& recorded.state.scheduler == acked.state.scheduler
                }
            }
            &&& !due && inflight.len() > 0 ==> acked.state.obufs.at(id).inflight
                == inflight.skip(1) && recorded.state.obufs == acked.state.obufs
            &&& !due ==> acked.disconnect && acked.stopped && recorded.disconnect
                && recorded.stopped && acked.execute_will == turn.execute_will
                && recorded.execute_will == turn.execute_will
        }),
{
    let state = turn.state;
    let pubrel = AckView::PubRel(PubRel { pkid, reason: PubRelReason::Success });
    lemma_has_tracker(state, id);
    lemma_set_shape(state.obufs, id, state.obufs.at(id).acked());
    lemma_set_shape(state.ackslog, id, state.ackslog.at(id).commit(pubrel));
    lemma_set_shape(
        state.scheduler.trackers,
        id,
        TrackerState { status: Status::Ready, ..state.scheduler.trackers.at(id) },
    );
    let inflight = state.obufs.at(id).inflight;
    if inflight.len() > 0 {
        assert(inflight.skip(1) =~= inflight.subrange(1, inflight.len() as int));
    }
}

/// A release of a publish that was kept back for it publishes the oldest of them
/// and completes the exchange. Where none was kept back the connection ends.
pub proof fn law_release(turn: Turn, id: ConnectionId, pkid: u16, now: Instant)
    requires
        turn.ok(id),
        !turn.stopped,
    ensures
        ({
            let before = turn.state;
            let acks = before.ackslog.at(id);
            let end = turn.pubrel(id, pkid, now);
            &&& end.state.ackslog.at(id).committed == acks.committed.push(
                AckView::PubComp(PubComp { pkid, reason: PubCompReason::Success }),
            )
            &&& acks.recorded.len() == 0 ==> end.disconnect && end.stopped
                && end.state.datalog == before.datalog
            &&& acks.recorded.len() > 0 ==> {
                let done = before.published(id, acks.recorded[0], None, now);
                &&& end.state.ackslog.at(id).recorded == acks.recorded.skip(1)
                &&& end.state.datalog == done.datalog
                &&& end.state.notifications == done.notifications
            }
        }),
{
    let state = turn.state;
    let acks = state.ackslog.at(id);
    lemma_has_tracker(state, id);
    let comp = AckView::PubComp(PubComp { pkid, reason: PubCompReason::Success });
    lemma_set_shape(state.ackslog, id, acks.commit(comp).released());
    if acks.recorded.len() > 0 {
        assert(acks.recorded.skip(1) =~= acks.recorded.subrange(1, acks.recorded.len() as int));
    }
}

} // verus!
