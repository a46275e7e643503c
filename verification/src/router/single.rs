//! No connection has two requests for one filter, but where it subscribes anew
//! to a filter for which it still has one.
use super::alertlog::AlertView;
use super::commit::{after_retention, publish_expiry};
use super::datalog::{parked, spread, DataLogState, LogEntry};
use super::delivery::{serve, with_acks, with_shadow};
use super::events::Event;
use super::graveyard::{retrieved, SavedStateView};
use super::invariants::{lemma_insert_shape, lemma_remove_shape, lemma_set_shape, waiters_ok};
use super::iobufs::{IncomingState, OutgoingState};
use super::laws::{
    law_requests_survive_consuming, law_requests_survive_publish, law_requests_survive_settling,
    law_subscription, law_unsubscription,
};
use super::logs::{
    lemma_find_log, lemma_matching, log_index, matching, requests_of, FilterLogState,
};
use super::messages::{
    AckView, ConnectionId, ConnectionState, DataRequest, RouterConfig, RouterMeter,
    MAX_SCHEDULE_ITERATIONS,
};
use super::requests::{
    asking, lemma_asking_add, lemma_asking_same, lemma_asking_twice,
    lemma_parked_empty, lemma_parked_same, lemma_requests_of_absent, lemma_requests_of_without, on,
    outstanding,
};
use super::scheduler::{ScheduleReason, Status, TrackerState};
use super::state::{
    all_rewound, lists, will_publish, RouterState, Subscribing, Turn, Unsubscribing,
};
use super::validate::clientid_valid;
use crate::arena::Slots;
use crate::clock::Moment;
use crate::payload::bytes_content;
use crate::protocol::{
    Filter, Packet, PubAck, PubAckReason, PubComp, PubCompReason, PubRel, PubRelReason, Publish,
    PublishProperties,
};
use std::time::Instant;
use vstd::prelude::*;
use vstd::utf8::decode_utf8;

verus! {

/// Whether no connection has two requests for one filter, wherever they are.
pub open spec fn single(
    trackers: Slots<TrackerState>,
    native: Seq<FilterLogState<LogEntry>>,
    notifications: Seq<(ConnectionId, DataRequest)>,
    obufs: Slots<OutgoingState>,
) -> bool {
    forall|id: ConnectionId, filter: Seq<char>|
        obufs.has(id) ==> (#[trigger] outstanding(trackers, native, notifications, id, on(filter)))
            <= 1
}

/// Whether no session that is kept has two requests for one filter.
pub open spec fn graves_single(graveyard: Map<Seq<char>, SavedStateView>) -> bool {
    forall|client_id: Seq<char>, filter: Seq<char>|
        graveyard.contains_key(client_id) ==> (#[trigger] asking(
            graveyard[client_id].tracker.data_requests,
            on(filter),
        )) <= 1
}

impl RouterState {
    /// No connection, and no session that is kept, has two requests for one
    /// filter.
    pub open spec fn single(self) -> bool {
        &&& single(
            self.scheduler.trackers,
            self.datalog.native,
            self.notifications,
            self.obufs,
        )
        &&& graves_single(self.graveyard)
    }
}

impl Subscribing {
    /// Whether each filter that is subscribed to anew is one that the connection
    /// has no request for.
    pub open spec fn afresh(self, id: ConnectionId, filters: Seq<Filter>) -> bool
        decreases filters.len(),
    {
        filters.len() > 0 ==> {
            let before = self.filters(id, filters.drop_last());
            let path = filters.last().path@;
            &&& self.afresh(id, filters.drop_last())
            &&& before.filter(id, filters.last()).refused || before.state.connections.at(
                id,
            ).subscriptions.contains(path) || before.state.asked(id, on(path)) == 0
        }
    }
}

impl Turn {
    /// Whether each filter that is subscribed to anew, in any of the packets, is
    /// one that the connection has no request for.
    pub open spec fn afresh(self, id: ConnectionId, packets: Seq<Packet>, now: Instant) -> bool
        decreases packets.len(),
    {
        packets.len() > 0 ==> {
            let before = self.packets(id, packets.drop_last(), now);
            &&& self.afresh(id, packets.drop_last(), now)
            &&& before.stopped || before.packet_afresh(id, packets.last())
        }
    }

    pub open spec fn packet_afresh(self, id: ConnectionId, packet: Packet) -> bool {
        packet matches Packet::Subscribe(subscribe) ==> Subscribing {
            state: self.state,
            codes: Seq::empty(),
            refused: false,
        }.afresh(id, subscribe.filters@)
    }
}

impl RouterState {
    /// Whether an event subscribes a connection anew only to filters that it has
    /// no request for.
    pub open spec fn event_afresh(self, id: ConnectionId, event: Event, now: Instant) -> bool {
        event is DeviceData && self.ibufs.has(id) ==> self.turn(id).afresh(
            id,
            self.ibufs.at(id).buffer,
            now,
        )
    }
}

pub proof fn lemma_append_items_len(datalog: DataLogState, items: Seq<(usize, LogEntry)>)
    requires
        forall|k: int| 0 <= k < items.len() ==> (#[trigger] items[k]).0 < datalog.native.len(),
    ensures
        datalog.append_items(items).native.len() == datalog.native.len(),
    decreases items.len(),
{
    if items.len() > 0 {
        let shorter = items.drop_last();
        assert forall|k: int| 0 <= k < shorter.len() implies (#[trigger] shorter[k]).0
            < datalog.native.len() by {
            assert(shorter[k] == items[k]);
        }
        lemma_append_items_len(datalog, shorter);
        assert(items[items.len() - 1].0 < datalog.native.len());
    }
}

/// No log is lost by a publish.
proof fn lemma_published_grows(
    state: RouterState,
    id: ConnectionId,
    publish: Publish,
    props: Option<PublishProperties>,
    now: Instant,
)
    ensures
        state.published(id, publish, props, now).datalog.native.len()
            >= state.datalog.native.len(),
{
    let datalog = state.datalog;
    let topic = decode_utf8(bytes_content(publish.topic));
    let kept = after_retention(datalog, topic, publish, props);
    let entry = LogEntry {
        publish: Publish { retain: false, ..publish },
        expiry: publish_expiry(props, now),
    };
    let idxs = matching(kept.native, topic);
    if kept.native.len() <= usize::MAX {
        lemma_matching(kept.native, topic);
        lemma_find_log(kept.native, topic);
    }
    if idxs.len() > 0 {
        lemma_append_items_len(kept, spread(idxs, entry));
    } else {
        lemma_append_items_len(
            kept.ensure_log(topic),
            spread(seq![log_index(kept.native, topic)], entry),
        );
    }
}

/// No log is lost by a subscription.
pub proof fn lemma_subscribed_grows(state: RouterState, id: ConnectionId, filter: Filter)
    ensures
        state.subscribed(id, filter).datalog.native.len() >= state.datalog.ensure_log(
            filter.path@,
        ).native.len() >= state.datalog.native.len(),
{
    let path = filter.path@;
    let opened = RouterState { datalog: state.datalog.ensure_log(path), ..state };
    let items = opened.datalog.replay_items(path);
    if opened.datalog.native.len() <= usize::MAX {
        opened.lemma_replay_items(path);
    }
    lemma_append_items_len(opened.datalog, items);
}

/// No log is lost where a subscription ends.
proof fn lemma_unsubscribed_grows(
    state: RouterState,
    id: ConnectionId,
    filter: Seq<char>,
    pkid: u16,
)
    ensures
        state.unsubscribed(id, filter, pkid).datalog.native.len() == state.datalog.native.len(),
{
    if state.datalog.native.len() <= usize::MAX {
        lemma_find_log(state.datalog.native, filter);
    }
}

pub proof fn lemma_subscribing_grows(from: Subscribing, id: ConnectionId, filters: Seq<Filter>)
    ensures
        from.filters(id, filters).state.datalog.native.len() >= from.state.datalog.native.len(),
    decreases filters.len(),
{
    if filters.len() > 0 {
        lemma_subscribing_grows(from, id, filters.drop_last());
        let before = from.filters(id, filters.drop_last());
        lemma_subscribed_grows(before.state, id, filters.last());
    }
}

/// No log is lost by the filters behind the first of a row.
pub proof fn lemma_subscribing_grows_by(
    from: Subscribing,
    id: ConnectionId,
    filters: Seq<Filter>,
    m: int,
)
    requires
        0 <= m <= filters.len(),
    ensures
        from.filters(id, filters).state.datalog.native.len() >= from.filters(
            id,
            filters.take(m),
        ).state.datalog.native.len(),
    decreases filters.len(),
{
    if m < filters.len() {
        let shorter = filters.drop_last();
        assert(shorter.take(m) =~= filters.take(m));
        lemma_subscribing_grows_by(from, id, shorter, m);
        lemma_subscribed_grows(from.filters(id, shorter).state, id, filters.last());
    } else {
        assert(filters.take(m) =~= filters);
    }
}

proof fn lemma_unsubscribing_grows(
    from: Unsubscribing,
    id: ConnectionId,
    filters: Seq<String>,
    pkid: u16,
)
    ensures
        from.filters(id, filters, pkid).state.datalog.native.len()
            >= from.state.datalog.native.len(),
    decreases filters.len(),
{
    if filters.len() > 0 {
        lemma_unsubscribing_grows(from, id, filters.drop_last(), pkid);
        let before = from.filters(id, filters.drop_last(), pkid);
        lemma_unsubscribed_grows(before.state, id, filters.last()@, pkid);
    }
}

/// No log is lost by a packet.
pub proof fn lemma_packet_grows(
    turn: Turn,
    id: ConnectionId,
    client_id: Seq<char>,
    packet: Packet,
    now: Instant,
)
    ensures
        turn.packet(id, client_id, packet, now).state.datalog.native.len()
            >= turn.state.datalog.native.len(),
{
    match packet {
        Packet::Publish(publish, props) => {
            let state = turn.state;
            let acked = if publish.qos is AtLeastOnce {
                state.with_ack(
                    id,
                    AckView::PubAck(PubAck { pkid: publish.pkid, reason: PubAckReason::Success }),
                )
            } else {
                state
            };
            let counted = RouterState {
                router_meters: RouterMeter {
                    total_publishes: acked.router_meters.total_publishes.wrapping_add(1),
                    ..acked.router_meters
                },
                ..acked
            };
            lemma_published_grows(counted, id, publish, props, now);
        },
        Packet::Subscribe(subscribe) => {
            lemma_subscribing_grows(
                Subscribing { state: turn.state, codes: Seq::empty(), refused: false },
                id,
                subscribe.filters@,
            );
        },
        Packet::Unsubscribe(unsubscribe) => {
            lemma_unsubscribing_grows(
                Unsubscribing { state: turn.state, any: false },
                id,
                unsubscribe.filters@,
                unsubscribe.pkid,
            );
        },
        Packet::PubRel(ack, None) => {
            let acks = turn.state.ackslog.at(id);
            let released = RouterState {
                ackslog: turn.state.ackslog.set(
                    id,
                    acks.commit(
                        AckView::PubComp(
                            PubComp { pkid: ack.pkid, reason: PubCompReason::Success },
                        ),
                    ).released(),
                ),
                ..turn.state
            };
            lemma_published_grows(released, id, acks.recorded[0], None, now);
        },
        _ => {},
    }
}

/// Where nobody has more requests than before, nobody has two for one filter.
proof fn lemma_kept(before: RouterState, after: RouterState)
    requires
        before.single(),
        graves_single(after.graveyard),
        forall|id: ConnectionId| #[trigger] after.obufs.has(id) ==> before.obufs.has(id),
        forall|id: ConnectionId, filter: Seq<char>|
            after.obufs.has(id) ==> (#[trigger] outstanding(
                after.scheduler.trackers,
                after.datalog.native,
                after.notifications,
                id,
                on(filter),
            )) <= before.asked(id, on(filter)),
    ensures
        after.single(),
{
    assert forall|id: ConnectionId, filter: Seq<char>| after.obufs.has(id) implies (
    #[trigger] outstanding(
        after.scheduler.trackers,
        after.datalog.native,
        after.notifications,
        id,
        on(filter),
    )) <= 1 by {
        assert(before.obufs.has(id));
        assert(before.asked(id, on(filter)) <= 1);
    }
}

proof fn lemma_published_single(
    state: RouterState,
    id: ConnectionId,
    publish: Publish,
    props: Option<PublishProperties>,
    now: Instant,
)
    requires
        state.inv(),
        state.single(),
        state.published(id, publish, props, now).fits(),
    ensures
        state.published(id, publish, props, now).single(),
{
    let after = state.published(id, publish, props, now);
    assert forall|other: ConnectionId, filter: Seq<char>| after.obufs.has(other) implies (
    #[trigger] outstanding(
        after.scheduler.trackers,
        after.datalog.native,
        after.notifications,
        other,
        on(filter),
    )) <= state.asked(other, on(filter)) by {
        law_requests_survive_publish(state, id, publish, props, now, other, on(filter));
    }
    lemma_kept(state, after);
}

proof fn lemma_settled_single(state: RouterState)
    requires
        state.inv(),
        state.single(),
    ensures
        state.settled().single(),
{
    let after = state.settled();
    assert forall|id: ConnectionId, filter: Seq<char>| after.obufs.has(id) implies (
    #[trigger] outstanding(
        after.scheduler.trackers,
        after.datalog.native,
        after.notifications,
        id,
        on(filter),
    )) <= state.asked(id, on(filter)) by {
        law_requests_survive_settling(state, id, on(filter));
    }
    lemma_kept(state, after);
}

proof fn lemma_rescheduled_single(state: RouterState, id: ConnectionId, reason: ScheduleReason)
    requires
        state.inv(),
        state.single(),
    ensures
        state.rescheduled(id, reason).single(),
{
    let after = state.rescheduled(id, reason);
    if after.scheduler != state.scheduler {
        lemma_set_shape(
            state.scheduler.trackers,
            id,
            TrackerState { status: Status::Ready, ..state.scheduler.trackers.at(id) },
        );
    }
    assert forall|other: ConnectionId, filter: Seq<char>| after.obufs.has(other) implies (
    #[trigger] outstanding(
        after.scheduler.trackers,
        after.datalog.native,
        after.notifications,
        other,
        on(filter),
    )) <= state.asked(other, on(filter)) by {
        assert(state.connections.has(other));
        assert(state.scheduler.trackers.has(other));
    }
    lemma_kept(state, after);
}

/// A subscription to a filter that is new to a connection gives it a second
/// request where it still has one, and only there.
pub proof fn law_subscription_is_single(state: RouterState, id: ConnectionId, filter: Filter)
    requires
        state.inv(),
        state.live(id),
        !(filter.qos is ExactlyOnce),
        state.datalog.ensure_log(filter.path@).native.len() <= usize::MAX,
        state.single(),
    ensures
        state.subscribed(id, filter).single() <==> state.connections.at(
            id,
        ).subscriptions.contains(filter.path@) || state.asked(id, on(filter.path@)) == 0,
{
    let after = state.subscribed(id, filter);
    let path = filter.path@;
    law_subscription(state, id, filter, id, on(path));
    assert(after.live(id));
    if state.connections.at(id).subscriptions.contains(path) || state.asked(id, on(path)) == 0 {
        assert forall|other: ConnectionId, f: Seq<char>| after.obufs.has(other) implies (
        #[trigger] outstanding(
            after.scheduler.trackers,
            after.datalog.native,
            after.notifications,
            other,
            on(f),
        )) <= 1 by {
            assert(state.asked(other, on(f)) <= 1);
            law_subscription(state, id, filter, other, on(f));
        }
    } else {
        assert(after.asked(id, on(path)) >= 2);
    }
}

proof fn lemma_unsubscribed_single(
    state: RouterState,
    id: ConnectionId,
    filter: Seq<char>,
    pkid: u16,
)
    requires
        state.inv(),
        state.live(id),
        state.single(),
    ensures
        state.unsubscribed(id, filter, pkid).single(),
{
    if lists(state.subscription_map, filter, id) {
        let after = state.unsubscribed(id, filter, pkid);
        assert(after.obufs == state.obufs);
        assert(after.graveyard == state.graveyard);
        assert forall|other: ConnectionId, f: Seq<char>| after.obufs.has(other) implies (
        #[trigger] outstanding(
            after.scheduler.trackers,
            after.datalog.native,
            after.notifications,
            other,
            on(f),
        )) <= state.asked(other, on(f)) by {
            law_unsubscription(state, id, filter, pkid, 0, 0, other, f);
        }
        lemma_kept(state, after);
    }
}

/// Filters that are subscribed to afresh leave a router in order, and give
/// nobody two requests for one filter.
pub proof fn lemma_subscribing(from: Subscribing, id: ConnectionId, filters: Seq<Filter>)
    requires
        from.state.inv(),
        from.state.live(id),
        from.filters(id, filters).state.fits(),
    ensures
        from.filters(id, filters).state.inv(),
        from.filters(id, filters).state.obufs == from.state.obufs,
        from.state.single() && from.afresh(id, filters) ==> from.filters(
            id,
            filters,
        ).state.single(),
    decreases filters.len(),
{
    if filters.len() > 0 {
        let shorter = filters.drop_last();
        let filter = filters.last();
        let before = from.filters(id, shorter);
        lemma_subscribed_grows(before.state, id, filter);
        lemma_subscribing(from, id, shorter);
        if !before.filter(id, filter).refused {
            before.state.lemma_subscribed(id, filter);
            if from.state.single() && from.afresh(id, filters) {
                law_subscription_is_single(before.state, id, filter);
            }
        }
    }
}

pub proof fn lemma_unsubscribing(
    from: Unsubscribing,
    id: ConnectionId,
    filters: Seq<String>,
    pkid: u16,
)
    requires
        from.state.inv(),
        from.state.live(id),
    ensures
        from.filters(id, filters, pkid).state.inv(),
        from.filters(id, filters, pkid).state.obufs == from.state.obufs,
        from.state.single() ==> from.filters(id, filters, pkid).state.single(),
    decreases filters.len(),
{
    if filters.len() > 0 {
        lemma_unsubscribing(from, id, filters.drop_last(), pkid);
        let before = from.filters(id, filters.drop_last(), pkid);
        before.state.lemma_unsubscribed(id, filters.last()@, pkid);
        if from.state.single() {
            lemma_unsubscribed_single(before.state, id, filters.last()@, pkid);
        }
    }
}

pub proof fn lemma_publish(
    turn: Turn,
    id: ConnectionId,
    publish: Publish,
    props: Option<PublishProperties>,
    now: Instant,
)
    requires
        turn.ok(id),
        turn.publish(id, publish, props, now).state.fits(),
    ensures
        turn.publish(id, publish, props, now).ok(id),
        turn.state.single() ==> turn.publish(id, publish, props, now).state.single(),
{
    if !(publish.qos is ExactlyOnce) {
        let state = turn.state;
        let ack = AckView::PubAck(PubAck { pkid: publish.pkid, reason: PubAckReason::Success });
        let acked = if publish.qos is AtLeastOnce {
            state.with_ack(id, ack)
        } else {
            state
        };
        state.lemma_with_ack(id, ack);
        let meters = RouterMeter {
            total_publishes: acked.router_meters.total_publishes.wrapping_add(1),
            ..acked.router_meters
        };
        let counted = RouterState { router_meters: meters, ..acked };
        acked.lemma_with_meters(meters);
        counted.lemma_published(id, publish, props, now);
        let published = counted.published(id, publish, props, now);
        if turn.state.single() {
            assert(counted.single());
            lemma_published_single(counted, id, publish, props, now);
        }
        if counted.publish_outcome(id, publish, props, now).outcome is Ok {
            let incoming = published.ibufs.at(id);
            published.lemma_with_incoming(
                id,
                IncomingState { meter: incoming.meter.register_publish(publish), ..incoming },
            );
        } else {
            published.lemma_with_meters(published.with_failure().router_meters);
        }
    }
}

proof fn lemma_pubrel(turn: Turn, id: ConnectionId, pkid: u16, now: Instant)
    requires
        turn.ok(id),
        turn.pubrel(id, pkid, now).state.fits(),
    ensures
        turn.pubrel(id, pkid, now).ok(id),
        turn.state.single() ==> turn.pubrel(id, pkid, now).state.single(),
{
    let acks = turn.state.ackslog.at(id);
    let left = acks.commit(
        AckView::PubComp(PubComp { pkid, reason: PubCompReason::Success }),
    ).released();
    let released = RouterState { ackslog: turn.state.ackslog.set(id, left), ..turn.state };
    turn.state.lemma_with_acks(id, left);
    if acks.recorded.len() > 0 {
        let publish = acks.recorded[0];
        released.lemma_published(id, publish, None, now);
        let published = released.published(id, publish, None, now);
        published.lemma_with_meters(published.with_failure().router_meters);
        if turn.state.single() {
            assert(released.single());
            lemma_published_single(released, id, publish, None, now);
        }
    }
}

/// The oldest publish to a connection is acked.
proof fn lemma_ack(turn: Turn, id: ConnectionId, pkid: u16)
    requires
        turn.ok(id),
    ensures
        turn.ack(id, pkid).ok(id),
        turn.state.single() ==> turn.ack(id, pkid).state.single(),
{
    let state = turn.state;
    let row = state.obufs.at(id).acked();
    state.lemma_with_outgoing(id, row);
    lemma_set_shape(state.obufs, id, row);
    let after = turn.ack(id, pkid).state;
    assert(after.live(id));
    if state.single() {
        assert forall|other: ConnectionId| #[trigger] after.obufs.has(
            other,
        ) implies state.obufs.has(other) by {}
        lemma_kept(state, after);
    }
}

/// A packet leaves a router in order, and gives nobody two requests for one
/// filter, unless it subscribes to one that is still asked for.
proof fn lemma_packet(
    turn: Turn,
    id: ConnectionId,
    client_id: Seq<char>,
    packet: Packet,
    now: Instant,
)
    requires
        turn.ok(id),
        turn.packet(id, client_id, packet, now).state.fits(),
    ensures
        turn.packet(id, client_id, packet, now).ok(id),
        turn.state.single() && (turn.stopped || turn.packet_afresh(id, packet)) ==> turn.packet(
            id,
            client_id,
            packet,
            now,
        ).state.single(),
{
    let state = turn.state;
    if !turn.stopped {
        match packet {
            Packet::Publish(publish, props) => {
                lemma_publish(turn, id, publish, props, now);
            },
            Packet::Subscribe(subscribe) => {
                let from = Subscribing { state, codes: Seq::empty(), refused: false };
                lemma_subscribing(from, id, subscribe.filters@);
                let done = from.filters(id, subscribe.filters@);
                let alert = AlertView::Subscribe(client_id, subscribe.pkid, subscribe.filters@);
                done.state.lemma_with_alert(alert);
                done.state.with_alert(alert).lemma_with_ack(
                    id,
                    AckView::SubAck(subscribe.pkid, done.codes),
                );
            },
            Packet::Unsubscribe(unsubscribe) => {
                let from = Unsubscribing { state, any: false };
                lemma_unsubscribing(from, id, unsubscribe.filters@, unsubscribe.pkid);
                from.filters(id, unsubscribe.filters@, unsubscribe.pkid).state.lemma_with_alert(
                    AlertView::Unsubscribe(client_id, unsubscribe.pkid, unsubscribe.filters@),
                );
            },
            Packet::PubAck(ack) => {
                lemma_ack(turn, id, ack.pkid);
                let acked = turn.ack(id, ack.pkid);
                acked.state.lemma_rescheduled(id, ScheduleReason::IncomingAck);
                if state.single() {
                    lemma_rescheduled_single(acked.state, id, ScheduleReason::IncomingAck);
                }
            },
            Packet::PubRec(ack) => {
                lemma_ack(turn, id, ack.pkid);
                let acked = turn.ack(id, ack.pkid);
                let pubrel = AckView::PubRel(
                    PubRel { pkid: ack.pkid, reason: PubRelReason::Success },
                );
                acked.state.lemma_with_ack(id, pubrel);
                let answered = acked.state.with_ack(id, pubrel);
                answered.lemma_rescheduled(id, ScheduleReason::IncomingAck);
                if state.single() {
                    assert(answered.single());
                    lemma_rescheduled_single(answered, id, ScheduleReason::IncomingAck);
                }
            },
            Packet::PubRel(ack, None) => {
                lemma_pubrel(turn, id, ack.pkid, now);
            },
            Packet::PingReq => {
                state.lemma_with_ack(id, AckView::PingResp);
            },
            Packet::Disconnect => {
                state.lemma_with_alert(AlertView::Disconnect(client_id));
            },
            _ => {},
        }
    }
}

pub proof fn lemma_packets(turn: Turn, id: ConnectionId, packets: Seq<Packet>, now: Instant)
    requires
        turn.ok(id),
        turn.packets(id, packets, now).state.fits(),
    ensures
        turn.packets(id, packets, now).ok(id),
        turn.state.single() && turn.afresh(id, packets, now) ==> turn.packets(
            id,
            packets,
            now,
        ).state.single(),
    decreases packets.len(),
{
    if packets.len() > 0 {
        let shorter = packets.drop_last();
        let before = turn.packets(id, shorter, now);
        let client_id = turn.state.ibufs.at(id).client_id;
        lemma_packet_grows(before, id, client_id, packets.last(), now);
        lemma_packets(turn, id, shorter, now);
        lemma_packet(before, id, client_id, packets.last(), now);
    }
}

/// No log is lost where a connection ends.
pub proof fn lemma_disconnected_grows(
    state: RouterState,
    id: ConnectionId,
    execute_will: bool,
    moment: Moment,
)
    ensures
        state.disconnected(id, execute_will, moment).datalog.native.len()
            >= state.datalog.native.len(),
        state.live(id) ==> state.leaving(id, execute_will, moment.now).datalog.native.len()
            == state.disconnected(id, execute_will, moment).datalog.native.len(),
{
    let alerted = state.with_alert(AlertView::Disconnect(state.obufs.at(id).client_id));
    let connection = alerted.connections.at(id);
    if let Some(will) = connection.last_will {
        let given = ConnectionState { last_will: None, ..connection };
        let taken = RouterState { connections: alerted.connections.set(id, given), ..alerted };
        lemma_published_grows(taken, id, will_publish(will), None, moment.now);
    }
}

proof fn lemma_leaving_single(
    state: RouterState,
    id: ConnectionId,
    execute_will: bool,
    now: Instant,
)
    requires
        state.inv(),
        state.live(id),
        state.single(),
        state.leaving(id, execute_will, now).fits(),
    ensures
        state.leaving(id, execute_will, now).single(),
{
    let alert = AlertView::Disconnect(state.obufs.at(id).client_id);
    let alerted = state.with_alert(alert);
    state.lemma_with_alert(alert);
    assert(alerted.single());
    assert(alerted.connections.has(id));
    let connection = alerted.connections.at(id);
    if execute_will {
        if let Some(will) = connection.last_will {
            let given = ConnectionState { last_will: None, ..connection };
            alerted.lemma_with_connection(id, given);
            let taken = RouterState { connections: alerted.connections.set(id, given), ..alerted };
            taken.lemma_published(id, will_publish(will), None, now);
            lemma_published_single(taken, id, will_publish(will), None, now);
            lemma_settled_single(taken.published(id, will_publish(will), None, now));
        }
    }
}

proof fn lemma_departed_single(state: RouterState, id: ConnectionId, time: Seq<char>)
    requires
        state.inv(),
        state.live(id),
        state.single(),
        state.notifications.len() == 0,
    ensures
        state.departed(id, time).single(),
{
    let after = state.departed(id, time);
    let session = state.session(id, time);
    state.lemma_departed(id, time);
    assert(state.connections.has(id));
    lemma_remove_shape(state.connections, state.scheduler.trackers, id);
    let tracker = state.scheduler.trackers.at(id);
    let requests = tracker.data_requests + parked(state.datalog.native, id);
    let again = all_rewound(requests, state.obufs.at(id).inflight);
    assert(graves_single(after.graveyard)) by {
        assert forall|client_id: Seq<char>, filter: Seq<char>|
            after.graveyard.contains_key(client_id) implies (#[trigger] asking(
            after.graveyard[client_id].tracker.data_requests,
            on(filter),
        )) <= 1 by {
            if client_id == session.tracker.id {
                assert(state.asked(id, on(filter)) <= 1);
                lemma_asking_add(
                    tracker.data_requests,
                    parked(state.datalog.native, id),
                    on(filter),
                );
                lemma_asking_same(again, requests, on(filter));
            } else {
                assert(state.graveyard.contains_key(client_id));
            }
        }
    }
    assert forall|other: ConnectionId| #[trigger] after.obufs.has(other) implies state.obufs.has(
        other,
    ) && other != id by {
        assert(after.live(other));
    }
    assert forall|other: ConnectionId, filter: Seq<char>| after.obufs.has(other) implies (
    #[trigger] outstanding(
        after.scheduler.trackers,
        after.datalog.native,
        after.notifications,
        other,
        on(filter),
    )) <= state.asked(other, on(filter)) by {
        assert(state.connections.has(other));
        assert(state.scheduler.trackers.has(other));
        let native = after.datalog.native;
        assert forall|i: int| 0 <= i < native.len() implies requests_of(
            (#[trigger] native[i]).waiters,
            other,
        ) == requests_of(state.datalog.native[i].waiters, other) by {
            lemma_requests_of_without(state.datalog.native[i].waiters, id, other);
        }
        lemma_parked_same(native, state.datalog.native, other);
    }
    lemma_kept(state, after);
}

proof fn lemma_disconnected_single(
    state: RouterState,
    id: ConnectionId,
    execute_will: bool,
    moment: Moment,
)
    requires
        state.inv(),
        state.notifications.len() == 0,
        state.single(),
        state.disconnected(id, execute_will, moment).fits(),
    ensures
        state.disconnected(id, execute_will, moment).single(),
{
    if state.live(id) {
        lemma_disconnected_grows(state, id, execute_will, moment);
        state.lemma_leaving(id, execute_will, moment.now);
        lemma_leaving_single(state, id, execute_will, moment.now);
        lemma_departed_single(
            state.leaving(id, execute_will, moment.now),
            id,
            moment.time@,
        );
    }
}

/// Who is not connected waits for nothing.
pub proof fn lemma_unknown(state: RouterState, id: ConnectionId)
    requires
        state.inv(),
        !state.live(id),
    ensures
        parked(state.datalog.native, id) == Seq::<DataRequest>::empty(),
        requests_of(state.notifications, id) == Seq::<DataRequest>::empty(),
{
    lemma_requests_of_absent(state.notifications, id);
    let native = state.datalog.native;
    let empty = Seq::new(native.len(), |i: int| native[i].drained());
    assert forall|i: int| 0 <= i < native.len() implies requests_of(
        (#[trigger] native[i]).waiters,
        id,
    ) == requests_of(empty[i].waiters, id) by {
        let waiters = native[i].waiters;
        assert(waiters_ok(native, state.obufs, waiters));
        lemma_requests_of_absent(waiters, id);
    }
    lemma_parked_same(native, empty, id);
    lemma_parked_empty(empty, id);
}

proof fn lemma_admitted_single(
    state: RouterState,
    connection: ConnectionState,
    incoming: IncomingState,
    outgoing: OutgoingState,
    moment: Moment,
)
    requires
        state.inv(),
        state.single(),
        state.connections.count() < state.config.max_connections,
    ensures
        state.admitted(connection, incoming, outgoing, moment).single(),
{
    let client_id = outgoing.client_id;
    let saved = match retrieved(state.graveyard, client_id, moment.now) {
        Some(saved) => saved,
        None => SavedStateView::new(client_id),
    };
    let id = state.connections.next_key();
    let tracker = if connection.clean {
        TrackerState::new(client_id)
    } else {
        saved.tracker
    };
    let after = state.admitted(connection, incoming, outgoing, moment);
    state.lemma_same_keys();
    lemma_insert_shape(state.connections, state.obufs, connection, outgoing);
    lemma_insert_shape(state.connections, state.scheduler.trackers, connection, tracker);
    let added = state.scheduler.add(tracker);
    lemma_set_shape(
        added.trackers,
        id,
        TrackerState { status: Status::Ready, ..added.trackers.at(id) },
    );
    lemma_unknown(state, id);
    assert forall|other: ConnectionId, filter: Seq<char>| after.obufs.has(other) implies (
    #[trigger] outstanding(
        after.scheduler.trackers,
        after.datalog.native,
        after.notifications,
        other,
        on(filter),
    )) <= 1 by {
        assert(added.trackers.has(other));
        if other == id {
            assert(asking(tracker.data_requests, on(filter)) <= 1);
        } else {
            assert(state.obufs.has(other));
            assert(state.connections.has(other));
            assert(state.scheduler.trackers.has(other));
            assert(state.asked(other, on(filter)) <= 1);
        }
    }
    assert(graves_single(after.graveyard)) by {
        assert forall|c: Seq<char>, filter: Seq<char>|
            after.graveyard.contains_key(c) implies (#[trigger] asking(
            after.graveyard[c].tracker.data_requests,
            on(filter),
        )) <= 1 by {
            assert(state.graveyard.contains_key(c) && after.graveyard[c] == state.graveyard[c]);
        }
    }
}

proof fn lemma_connected_single(
    state: RouterState,
    connection: ConnectionState,
    incoming: IncomingState,
    outgoing: OutgoingState,
    moment: Moment,
)
    requires
        state.inv(),
        state.notifications.len() == 0,
        state.single(),
        state.connected(connection, incoming, outgoing, moment).fits(),
    ensures
        state.connected(connection, incoming, outgoing, moment).single(),
{
    let client_id = outgoing.client_id;
    if clientid_valid(client_id) {
        let cleared = state.without_duplicate(client_id, moment);
        state.lemma_without_duplicate(client_id, moment);
        if state.connection_map.contains_key(client_id) {
            lemma_disconnected_single(state, state.connection_map[client_id], true, moment);
        }
        if cleared.connections.count() < cleared.config.max_connections {
            lemma_admitted_single(cleared, connection, incoming, outgoing, moment);
        }
    }
}

proof fn lemma_payload_single(state: RouterState, id: ConnectionId, moment: Moment)
    requires
        state.inv(),
        state.notifications.len() == 0,
        state.single(),
        state.event_afresh(id, Event::DeviceData, moment.now),
        state.payload_handled(id, moment).fits(),
    ensures
        state.payload_handled(id, moment).single(),
{
    if state.ibufs.has(id) {
        assert(state.connections.has(id));
        let start = state.turn(id);
        let packets = state.ibufs.at(id).buffer;
        state.lemma_with_incoming(
            id,
            IncomingState { buffer: Seq::empty(), ..state.ibufs.at(id) },
        );
        let done = start.packets(id, packets, moment.now);
        let acked = if done.force_ack {
            done.state.rescheduled(id, ScheduleReason::FreshData)
        } else {
            done.state
        };
        let told = if done.new_data {
            acked.settled()
        } else {
            acked
        };
        lemma_disconnected_grows(told, id, done.execute_will, moment);
        assert(start.state.single());
        lemma_packets(start, id, packets, moment.now);
        done.state.lemma_rescheduled(id, ScheduleReason::FreshData);
        lemma_rescheduled_single(done.state, id, ScheduleReason::FreshData);
        acked.lemma_settled();
        lemma_settled_single(acked);
        if done.disconnect {
            lemma_disconnected_single(told, id, done.execute_will, moment);
        }
    }
}

/// A turn of a connection ends or adds no connection, and touches no session
/// that is kept.
proof fn lemma_served_tables(
    state: RouterState,
    id: ConnectionId,
    requests: Seq<DataRequest>,
    n: nat,
    now: Instant,
)
    requires
        state.obufs.has(id),
    ensures
        state.served(id, requests, n, now).graveyard == state.graveyard,
        forall|other: ConnectionId| #[trigger]
            state.served(id, requests, n, now).obufs.has(other) == state.obufs.has(other),
    decreases n,
{
    if n > 0 && requests.len() > 0 {
        let rest = requests.subrange(1, requests.len() as int);
        let out = serve(requests[0], state.datalog, state.obufs.at(id), state.alertlog, now);
        lemma_set_shape(state.obufs, id, out.outgoing);
        let next = RouterState {
            obufs: state.obufs.set(id, out.outgoing),
            alertlog: out.alertlog,
            ..state
        };
        let aside = RouterState { datalog: next.datalog.park(id, out.request), ..next };
        lemma_served_tables(aside, id, rest, (n - 1) as nat, now);
        lemma_served_tables(next, id, rest.push(out.request), (n - 1) as nat, now);
    }
}

/// A router that is new has no two requests for one filter. An event gives
/// nobody two, unless it subscribes a connection anew to a filter for which it
/// still has a request. That can be: a connection that unsubscribes in the same
/// batch in which something came in for the filter is still told of it, and so
/// keeps its request.
pub proof fn law_one_request_per_filter(
    state: RouterState,
    id: ConnectionId,
    event: Event,
    moment: Moment,
    router_id: usize,
    config: RouterConfig,
)
    requires
        state.inv(),
        state.notifications.len() == 0,
        state.accepts(id, event),
        state.single(),
        state.event_afresh(id, event, moment.now),
        state.after_event(id, event, moment).fits(),
    ensures
        state.after_event(id, event, moment).single(),
        RouterState::new(router_id, config).single(),
{
    let after = state.after_event(id, event, moment);
    match event {
        Event::Connect { connection, incoming, outgoing } => {
            lemma_connected_single(state, connection@, incoming@, outgoing@, moment);
        },
        Event::DeviceData => {
            lemma_payload_single(state, id, moment);
        },
        Event::Disconnect { execute_will } => {
            lemma_disconnected_single(state, id, execute_will, moment);
        },
        Event::Ready => {
            lemma_rescheduled_single(state, id, ScheduleReason::Ready);
        },
        Event::Shadow(request) => {
            lemma_set_shape(
                state.obufs,
                id,
                with_shadow(state.datalog, state.obufs.at(id), request.filter@),
            );
            assert forall|other: ConnectionId| #[trigger] after.obufs.has(
                other,
            ) implies state.obufs.has(other) by {}
            lemma_kept(state, after);
        },
        Event::Metrics(_) => {
            assert(graves_single(after.graveyard)) by {
                assert forall|c: Seq<char>, filter: Seq<char>|
                    after.graveyard.contains_key(c) implies (#[trigger] asking(
                    after.graveyard[c].tracker.data_requests,
                    on(filter),
                )) <= 1 by {
                    assert(state.graveyard.contains_key(c) && after.graveyard[c]
                        == state.graveyard[c]);
                }
            }
        },
        _ => {},
    }
}

/// When connections have their turn, nobody gets two requests for one filter.
pub proof fn law_turns_keep_one_request_per_filter(state: RouterState, now: Instant)
    requires
        state.inv(),
        state.single(),
    ensures
        state.consumed(now).single(),
{
    if state.scheduler.readyqueue.len() > 0 {
        let after = state.consumed(now);
        let id = state.scheduler.readyqueue[0];
        let polled = RouterState { scheduler: state.scheduler.polled(), ..state };
        if state.live(id) {
            let acks = polled.ackslog.at(id);
            lemma_set_shape(polled.obufs, id, with_acks(polled.obufs.at(id), acks.committed));
            lemma_served_tables(
                polled.acked(id),
                id,
                state.scheduler.polled_requests(),
                MAX_SCHEDULE_ITERATIONS as nat,
                now,
            );
        }
        assert forall|other: ConnectionId| #[trigger] after.obufs.has(
            other,
        ) implies state.obufs.has(other) by {
            if state.live(id) {
                assert(polled.acked(id).obufs.has(other) == polled.obufs.has(other));
            }
        }
        assert forall|other: ConnectionId, filter: Seq<char>| after.obufs.has(other) implies (
        #[trigger] outstanding(
            after.scheduler.trackers,
            after.datalog.native,
            after.notifications,
            other,
            on(filter),
        )) <= state.asked(other, on(filter)) by {
            law_requests_survive_consuming(state, now, other, on(filter));
        }
        lemma_kept(state, after);
    }
}

/// Where nobody has two requests for one filter, the requests that a connection
/// has, or that are kept of it, are for different filters.
pub proof fn law_requests_are_distinct(
    state: RouterState,
    id: ConnectionId,
    client_id: Seq<char>,
    i: int,
    j: int,
)
    requires
        state.single(),
    ensures
        state.live(id) ==> {
            let requests = state.scheduler.trackers.at(id).data_requests;
            0 <= i < j < requests.len() ==> requests[i].filter@ != requests[j].filter@
        },
        state.graveyard.contains_key(client_id) ==> {
            let requests = state.graveyard[client_id].tracker.data_requests;
            0 <= i < j < requests.len() ==> requests[i].filter@ != requests[j].filter@
        },
{
    if state.live(id) {
        let requests = state.scheduler.trackers.at(id).data_requests;
        if 0 <= i < j < requests.len() && requests[i].filter@ == requests[j].filter@ {
            assert(state.asked(id, on(requests[i].filter@)) <= 1);
            lemma_asking_twice(requests, i, j);
        }
    }
    if state.graveyard.contains_key(client_id) {
        let requests = state.graveyard[client_id].tracker.data_requests;
        if 0 <= i < j < requests.len() && requests[i].filter@ == requests[j].filter@ {
            assert(asking(requests, on(requests[i].filter@)) <= 1);
            lemma_asking_twice(requests, i, j);
        }
    }
}

} // verus!
