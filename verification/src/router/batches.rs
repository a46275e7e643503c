//! What becomes of the packets that a client sends.
use super::commit::{after_retention, append_publish, publish_expiry};
use super::datalog::{parked, spread, DataLogState, LogEntry, RetainedView};
use super::errors::RouterErrorView;
use super::invariants::{lemma_set_shape, subscribes};
use super::iobufs::IncomingState;
use super::laws::{
    law_publish_reaches_its_logs, law_retained_is_the_last, law_unsubscription,
    lemma_packets_inboxes, lemma_spread,
};
use super::logs::{
    lemma_find_log, lemma_matching, lemma_with_filter, log_index, matching, requests_of,
};
use super::messages::{AckView, ConnectionId, ConnectionState};
use super::requests::{asking, lemma_asking_once, on};
use super::scheduler::ScheduleReason;
use super::single::{lemma_append_items_len, lemma_disconnected_grows, lemma_packets, lemma_publish};
use super::state::{lists, RouterState, Subscribing, Turn, Unsubscribing};
use super::validate::subscription_verdict;
use crate::clock::Moment;
use crate::payload::bytes_content;
use crate::protocol::{Filter, Packet, PubAck, PubAckReason, Publish, PublishProperties};
use crate::segments::log::{Entry, LogState, Offset};
use crate::topic::topic_matches;
use std::time::Instant;
use vstd::prelude::*;
use vstd::utf8::{decode_utf8, valid_utf8};

verus! {

/// What a packet has to be answered with.
pub enum Answer {
    /// A publish was received, under a packet id.
    Published(u16),
    /// A subscription was looked at.
    Subscribed(u16),
    /// A publish may be let go of.
    Release(u16),
    /// A publish was let go of.
    Released(u16),
    Alive,
}

/// The answer that a packet asks for.
pub open spec fn asked_for(packet: Packet) -> Option<Answer> {
    match packet {
        Packet::Publish(publish, _) => if publish.qos is AtLeastOnce {
            Some(Answer::Published(publish.pkid))
        } else {
            None
        },
        Packet::Subscribe(subscribe) => Some(Answer::Subscribed(subscribe.pkid)),
        Packet::PubRec(ack) => Some(Answer::Release(ack.pkid)),
        Packet::PubRel(ack, None) => Some(Answer::Released(ack.pkid)),
        Packet::PingReq => Some(Answer::Alive),
        _ => None,
    }
}

/// The answers that packets ask for, in order.
pub open spec fn all_asked_for(packets: Seq<Packet>) -> Seq<Answer>
    decreases packets.len(),
{
    if packets.len() == 0 {
        Seq::empty()
    } else {
        match asked_for(packets.last()) {
            Some(answer) => all_asked_for(packets.drop_last()).push(answer),
            None => all_asked_for(packets.drop_last()),
        }
    }
}

/// The answer that an ack is.
pub open spec fn answered(ack: AckView) -> Option<Answer> {
    match ack {
        AckView::PubAck(ack) => Some(Answer::Published(ack.pkid)),
        AckView::SubAck(pkid, _) => Some(Answer::Subscribed(pkid)),
        AckView::PubRel(ack) => Some(Answer::Release(ack.pkid)),
        AckView::PubComp(ack) => Some(Answer::Released(ack.pkid)),
        AckView::PingResp => Some(Answer::Alive),
        _ => None,
    }
}

/// The answers among acks, in order.
pub open spec fn all_answered(acks: Seq<AckView>) -> Seq<Answer>
    decreases acks.len(),
{
    if acks.len() == 0 {
        Seq::empty()
    } else {
        match answered(acks.last()) {
            Some(answer) => all_answered(acks.drop_last()).push(answer),
            None => all_answered(acks.drop_last()),
        }
    }
}

proof fn lemma_answered_push(acks: Seq<AckView>, ack: AckView)
    ensures
        all_answered(acks.push(ack)) == match answered(ack) {
            Some(answer) => all_answered(acks).push(answer),
            None => all_answered(acks),
        },
{
    assert(acks.push(ack).drop_last() =~= acks);
}

/// Each publish that a client sends is looked at on its own, whatever it sent
/// before. One that is to be acked adds one ack, under its own packet id, and no
/// other does. Where its topic can be read and is the client's to use, and a
/// filter selects it or the client may bring filters of its own, it is taken in;
/// otherwise the connection ends, and no log changes.
pub proof fn law_publish_is_taken_in(
    turn: Turn,
    id: ConnectionId,
    publish: Publish,
    props: Option<PublishProperties>,
    now: Instant,
    other: ConnectionId,
)
    requires
        turn.ok(id),
        !(publish.qos is ExactlyOnce),
        turn.publish(id, publish, props, now).state.fits(),
    ensures
        ({
            let before = turn.state;
            let end = turn.publish(id, publish, props, now);
            let after = end.state;
            let bytes = bytes_content(publish.topic);
            let topic = decode_utf8(bytes);
            let connection = before.connections.at(id);
            let selected = exists|i: int|
                0 <= i < before.datalog.native.len() && topic_matches(
                    topic,
                    (#[trigger] before.datalog.native[i]).filter,
                );
            let taken = {
                &&& valid_utf8(bytes)
                &&& before.config.validate_tenant_prefix && connection.tenant_prefix is Some
                    ==> connection.tenant_prefix->0@.is_prefix_of(topic)
                &&& selected || connection.dynamic_filters
            };
            let acks = before.ackslog.at(id);
            let meters = before.router_meters;
            let meter = before.ibufs.at(id).meter;
            &&& publish.qos is AtLeastOnce ==> after.ackslog.at(id).committed
                == acks.committed.push(
                AckView::PubAck(PubAck { pkid: publish.pkid, reason: PubAckReason::Success }),
            )
            &&& publish.qos is AtMostOnce ==> after.ackslog.at(id).committed == acks.committed
            &&& publish.qos is AtLeastOnce ==> end.force_ack
            &&& publish.qos is AtMostOnce ==> end.force_ack == turn.force_ack
            &&& after.ackslog.at(id).recorded == acks.recorded
            &&& other != id && before.live(other) ==> after.ackslog.at(other)
                == before.ackslog.at(other)
            &&& after.router_meters.total_publishes == meters.total_publishes.wrapping_add(1)
            &&& after.router_meters.total_connections == meters.total_connections
            &&& after.router_meters.total_subscriptions == meters.total_subscriptions
            &&& taken ==> {
                &&& end.stopped == turn.stopped
                &&& end.disconnect == turn.disconnect
                &&& end.new_data
                &&& after.router_meters.failed_publishes == meters.failed_publishes
                &&& after.ibufs.at(id).meter.publish_count == meter.publish_count.wrapping_add(1)
                &&& after.ibufs.at(id).meter.subscriptions == meter.subscriptions
                &&& meter.total_size + 4 + bytes.len() + bytes_content(publish.payload).len()
                    <= usize::MAX ==> after.ibufs.at(id).meter.total_size == meter.total_size + 4
                    + bytes.len() + bytes_content(publish.payload).len()
            }
            &&& !taken ==> {
                &&& end.stopped
                &&& end.disconnect
                &&& end.new_data == turn.new_data
                &&& after.router_meters.failed_publishes == meters.failed_publishes.wrapping_add(1)
                &&& after.datalog.native == before.datalog.native
                &&& after.notifications == before.notifications
                &&& after.ibufs == before.ibufs
            }
            &&& end.execute_will == turn.execute_will
            &&& after.connections == before.connections
            &&& after.connection_map == before.connection_map
            &&& after.subscription_map == before.subscription_map
            &&& after.scheduler == before.scheduler
            &&& after.obufs == before.obufs
            &&& after.graveyard == before.graveyard
            &&& after.alertlog == before.alertlog
        }),
{
    let state = turn.state;
    assert(state.connections.has(id));
    assert(state.ackslog.has(id));
    assert(state.ibufs.has(id));
    if state.live(other) {
        assert(state.connections.has(other));
        assert(state.ackslog.has(other));
    }
    let ack = AckView::PubAck(PubAck { pkid: publish.pkid, reason: PubAckReason::Success });
    lemma_set_shape(state.ackslog, id, state.ackslog.at(id).commit(ack));
    lemma_publish(turn, id, publish, props, now);
    let topic = decode_utf8(bytes_content(publish.topic));
    let native = state.datalog.native;
    lemma_matching(native, topic);
    if exists|i: int|
        0 <= i < native.len() && topic_matches(topic, (#[trigger] native[i]).filter) {
        let i = choose|i: int|
            0 <= i < native.len() && topic_matches(topic, (#[trigger] native[i]).filter);
        assert(native[(i as usize) as int] == native[i]);
        assert(matching(native, topic).contains(i as usize));
    }
    if matching(native, topic).len() > 0 {
        assert(topic_matches(topic, native[matching(native, topic)[0] as int].filter));
    }
}

/// A publish that is taken in goes to each log whose filter selects its topic,
/// once, as it was sent but for the mark that it is to be retained, and to no
/// other log. All who waited there are told, behind those who are to be told
/// already. It is retained where it asks for that, in place of what was retained
/// on its topic; and one without a payload clears that.
pub proof fn law_publish_is_kept(
    turn: Turn,
    id: ConnectionId,
    publish: Publish,
    props: Option<PublishProperties>,
    now: Instant,
    i: int,
    k: int,
    one: RetainedView,
)
    requires
        turn.ok(id),
        !(publish.qos is ExactlyOnce),
        turn.publish(id, publish, props, now).state.fits(),
        !turn.stopped,
        !turn.publish(id, publish, props, now).stopped,
    ensures
        ({
            let before = turn.state.datalog;
            let end = turn.publish(id, publish, props, now);
            let after = end.state.datalog;
            let topic = decode_utf8(bytes_content(publish.topic));
            let empty = bytes_content(publish.payload).len() == 0;
            let told = turn.state.notifications;
            let selected = exists|j: int|
                0 <= j < before.native.len() && topic_matches(
                    topic,
                    (#[trigger] before.native[j]).filter,
                );
            let entry = LogEntry {
                publish: Publish { retain: false, ..publish },
                expiry: publish_expiry(props, now),
            };
            &&& selected ==> after.native.len() == before.native.len()
            &&& !selected ==> exists|h: int| #[trigger]
                gets(before, after, topic, entry, h) && before.native.len() <= after.native.len()
                    <= before.native.len() + 1
            &&& !selected && 0 <= i < before.native.len() && before.native[i].filter != topic
                ==> after.native[i] == before.native[i]
            &&& 0 <= i < before.native.len() ==> after.native[i].filter == before.native[i].filter
            &&& 0 <= i < before.native.len() && topic_matches(topic, before.native[i].filter) ==> {
                &&& after.native[i].log == before.native[i].log.append(
                    entry,
                    LogEntry::weight(entry),
                )
                &&& after.native[i].waiters.len() == 0
                &&& 0 <= k < before.native[i].waiters.len() ==> end.state.notifications.contains(
                    before.native[i].waiters[k],
                )
            }
            &&& selected && 0 <= i < before.native.len() && !topic_matches(
                topic,
                before.native[i].filter,
            ) ==> after.native[i] == before.native[i]
            &&& told.is_prefix_of(end.state.notifications)
            &&& one.topic != topic ==> after.retained.contains(one) == before.retained.contains(one)
            &&& one.topic == topic && empty ==> !after.retained.contains(one)
            &&& one.topic == topic && !empty && publish.retain ==> after.retained.contains(one)
                == (one == RetainedView { topic, publish, props })
            &&& one.topic == topic && !empty && !publish.retain ==> after.retained.contains(one)
                == before.retained.contains(one)
        }),
{
    let state = turn.state;
    assert(state.connections.has(id));
    let datalog = state.datalog;
    let connection = state.connections.at(id);
    let topic = decode_utf8(bytes_content(publish.topic));
    let appended = append_publish(datalog, connection, publish, props, now);
    let native = datalog.native;
    lemma_publish(turn, id, publish, props, now);
    law_retained_is_the_last(datalog, topic, publish, props, one);
    let kept = after_retention(datalog, topic, publish, props);
    lemma_matching(native, topic);
    if exists|j: int|
        0 <= j < native.len() && topic_matches(topic, (#[trigger] native[j]).filter) {
        let j = choose|j: int|
            0 <= j < native.len() && topic_matches(topic, (#[trigger] native[j]).filter);
        assert(native[(j as usize) as int] == native[j]);
        assert(matching(native, topic).contains(j as usize));
        let idxs = matching(native, topic);
        let entry = LogEntry {
            publish: Publish { retain: false, ..publish },
            expiry: publish_expiry(props, now),
        };
        kept.lemma_append_items(spread(idxs, entry));
        law_publish_reaches_its_logs(datalog, connection, publish, props, now, j, 0);
        if 0 <= i < native.len() {
            law_publish_reaches_its_logs(datalog, connection, publish, props, now, i, k);
            if 0 <= k < native[i].waiters.len() && topic_matches(topic, native[i].filter) {
                let waiter = native[i].waiters[k];
                let h = choose|h: int|
                    0 <= h < appended.woken.len() && appended.woken[h] == waiter;
                assert((state.notifications + appended.woken)[state.notifications.len() + h]
                    == waiter);
            }
        }
    } else {
        if matching(native, topic).len() > 0 {
            assert(topic_matches(topic, native[matching(native, topic)[0] as int].filter));
        }
        let entry = LogEntry {
            publish: Publish { retain: false, ..publish },
            expiry: publish_expiry(props, now),
        };
        let opened = kept.ensure_log(topic);
        let idx = log_index(kept.native, topic);
        lemma_find_log(native, topic);
        lemma_append_items_len(opened, spread(seq![idx], entry));
        lemma_with_filter(native, topic, kept.config);
        lemma_spread(opened, seq![idx], entry, idx as int);
        assert(seq![idx][0] == idx);
        assert(seq![idx].contains(idx));
        assert(gets(datalog, appended.datalog, topic, entry, idx as int));
        if 0 <= i < native.len() {
            lemma_spread(opened, seq![idx], entry, i);
            assert(opened.native[i] == native[i]);
        }
    }
    assert(turn.publish(id, publish, props, now).state.notifications =~= state.notifications
        + appended.woken);
}

/// Whether the log of a topic itself has one more entry, and is there for it
/// where it was not.
pub open spec fn gets(
    before: DataLogState,
    after: DataLogState,
    topic: Seq<char>,
    entry: LogEntry,
    h: int,
) -> bool {
    let log = if h < before.native.len() {
        before.native[h].log
    } else {
        LogState::new(before.config.max_segment_size, before.config.max_mem_segments)
    };
    &&& 0 <= h < after.native.len()
    &&& after.native[h].filter == topic
    &&& after.native[h].log == log.append(entry, LogEntry::weight(entry))
}

proof fn lemma_subscribing_acks(from: Subscribing, id: ConnectionId, filters: Seq<Filter>)
    ensures
        from.filters(id, filters).state.ackslog == from.state.ackslog,
    decreases filters.len(),
{
    if filters.len() > 0 {
        lemma_subscribing_acks(from, id, filters.drop_last());
    }
}

proof fn lemma_unsubscribing_acks(
    from: Unsubscribing,
    id: ConnectionId,
    filters: Seq<String>,
    pkid: u16,
)
    requires
        from.state.ackslog.has(id),
    ensures
        from.filters(id, filters, pkid).state.ackslog.has(id),
        all_answered(from.filters(id, filters, pkid).state.ackslog.at(id).committed)
            == all_answered(from.state.ackslog.at(id).committed),
    decreases filters.len(),
{
    if filters.len() > 0 {
        lemma_unsubscribing_acks(from, id, filters.drop_last(), pkid);
        let before = from.filters(id, filters.drop_last(), pkid).state;
        let ack = AckView::UnsubAck(pkid, Seq::empty());
        lemma_answered_push(before.ackslog.at(id).committed, ack);
        lemma_set_shape(before.ackslog, id, before.ackslog.at(id).commit(ack));
    }
}

proof fn lemma_packet_answered(
    turn: Turn,
    id: ConnectionId,
    client_id: Seq<char>,
    packet: Packet,
    now: Instant,
)
    requires
        turn.state.ackslog.has(id),
        !turn.stopped,
        !turn.packet(id, client_id, packet, now).stopped,
    ensures
        turn.packet(id, client_id, packet, now).state.ackslog.has(id),
        all_answered(turn.packet(id, client_id, packet, now).state.ackslog.at(id).committed)
            == match asked_for(packet) {
            Some(answer) => all_answered(turn.state.ackslog.at(id).committed).push(answer),
            None => all_answered(turn.state.ackslog.at(id).committed),
        },
{
    let acks = turn.state.ackslog.at(id);
    let after = turn.packet(id, client_id, packet, now).state.ackslog.at(id);
    match packet {
        Packet::Subscribe(subscribe) => {
            lemma_subscribing_acks(
                Subscribing { state: turn.state, codes: Seq::empty(), refused: false },
                id,
                subscribe.filters@,
            );
        },
        Packet::Unsubscribe(unsubscribe) => {
            lemma_unsubscribing_acks(
                Unsubscribing { state: turn.state, any: false },
                id,
                unsubscribe.filters@,
                unsubscribe.pkid,
            );
        },
        _ => {},
    }
    if asked_for(packet) is Some {
        assert(after.committed.drop_last() =~= acks.committed);
        assert(after.committed =~= acks.committed.push(after.committed.last()));
        lemma_answered_push(acks.committed, after.committed.last());
    }
}

proof fn lemma_packets_answered(turn: Turn, id: ConnectionId, packets: Seq<Packet>, now: Instant)
    requires
        turn.state.ackslog.has(id),
        !turn.stopped,
        !turn.packets(id, packets, now).stopped,
    ensures
        turn.packets(id, packets, now).state.ackslog.has(id),
        all_answered(turn.packets(id, packets, now).state.ackslog.at(id).committed)
            == all_answered(turn.state.ackslog.at(id).committed) + all_asked_for(packets),
    decreases packets.len(),
{
    if packets.len() > 0 {
        let shorter = packets.drop_last();
        let before = turn.packets(id, shorter, now);
        assert(!before.stopped);
        lemma_packets_answered(turn, id, shorter, now);
        lemma_packet_answered(
            before,
            id,
            turn.state.ibufs.at(id).client_id,
            packets.last(),
            now,
        );
        let old = all_answered(turn.state.ackslog.at(id).committed);
        if let Some(answer) = asked_for(packets.last()) {
            assert((old + all_asked_for(shorter)).push(answer) =~= old + all_asked_for(
                shorter,
            ).push(answer));
        }
    } else {
        let old = all_answered(turn.state.ackslog.at(id).committed);
        assert(old + all_asked_for(packets) =~= old);
    }
}

/// A turn that is stopped ends the connection.
proof fn lemma_stopped_ends(turn: Turn, id: ConnectionId, packets: Seq<Packet>, now: Instant)
    requires
        turn.stopped ==> turn.disconnect,
    ensures
        turn.packets(id, packets, now).stopped ==> turn.packets(id, packets, now).disconnect,
        turn.disconnect ==> turn.packets(id, packets, now).disconnect,
    decreases packets.len(),
{
    if packets.len() > 0 {
        lemma_stopped_ends(turn, id, packets.drop_last(), now);
    }
}

/// A client that stays connected is answered all that it sent, however much that
/// was at once: the answers to its packets are pending behind those that were,
/// one for each packet that asks for one, under its own packet id, in the order
/// in which the packets came.
pub proof fn law_every_packet_is_answered(state: RouterState, id: ConnectionId, moment: Moment)
    requires
        state.inv(),
        state.live(id),
        state.payload_handled(id, moment).live(id),
        state.payload_handled(id, moment).fits(),
        state.notifications.len() == 0,
    ensures
        all_answered(state.payload_handled(id, moment).ackslog.at(id).committed) == all_answered(
            state.ackslog.at(id).committed,
        ) + all_asked_for(state.ibufs.at(id).buffer),
{
    assert(state.connections.has(id));
    assert(state.ibufs.has(id));
    assert(state.ackslog.has(id));
    let packets = state.ibufs.at(id).buffer;
    let start = state.turn(id);
    let done = start.packets(id, packets, moment.now);
    let after = state.payload_handled(id, moment);
    lemma_finishing(state, id, moment);
    lemma_stopped_ends(start, id, packets, moment.now);
    lemma_packets_answered(start, id, packets, moment.now);
}

/// How a batch ends, from what its packets made of the router.
proof fn lemma_finishing(state: RouterState, id: ConnectionId, moment: Moment)
    requires
        state.inv(),
        state.live(id),
        state.payload_handled(id, moment).fits(),
        state.notifications.len() == 0,
    ensures
        ({
            let start = state.turn(id);
            let done = start.packets(id, state.ibufs.at(id).buffer, moment.now);
            let after = state.payload_handled(id, moment);
            &&& start.ok(id)
            &&& done.ok(id)
            &&& done.state.fits()
            &&& start.state.ackslog == state.ackslog
            &&& start.state.obufs == state.obufs
            &&& start.state.datalog == state.datalog
            &&& start.state.scheduler == state.scheduler
            &&& start.state.connections == state.connections
            &&& start.state.subscription_map == state.subscription_map
            &&& done.disconnect <==> !after.live(id)
            &&& !done.disconnect ==> after.ackslog == done.state.ackslog
            &&& !done.disconnect ==> after.connections == done.state.connections
            &&& !done.disconnect ==> after.subscription_map == done.state.subscription_map
            &&& !done.disconnect ==> after.datalog == done.state.datalog
            &&& after == done.finish(id, moment)
        }),
{
    assert(state.connections.has(id));
    assert(state.ibufs.has(id));
    let start = state.turn(id);
    let packets = state.ibufs.at(id).buffer;
    state.lemma_with_incoming(id, IncomingState { buffer: Seq::empty(), ..state.ibufs.at(id) });
    let done = start.packets(id, packets, moment.now);
    let acked = if done.force_ack {
        done.state.rescheduled(id, ScheduleReason::FreshData)
    } else {
        done.state
    };
    let told = if done.new_data {
        acked.settled()
    } else {
        acked
    };
    lemma_disconnected_grows(told, id, done.execute_will, moment);
    lemma_packets(start, id, packets, moment.now);
    done.state.lemma_rescheduled(id, ScheduleReason::FreshData);
    acked.lemma_settled();
    if done.disconnect {
        told.lemma_disconnected(id, done.execute_will, moment);
    }
}

/// Packets may come in one batch or in two parts of a batch: what is made of the
/// second part depends on nothing but what was made of the first.
pub proof fn law_batch_in_parts(
    turn: Turn,
    id: ConnectionId,
    a: Seq<Packet>,
    b: Seq<Packet>,
    now: Instant,
)
    requires
        turn.state.ibufs.has(id),
    ensures
        turn.packets(id, a + b, now) == turn.packets(id, a, now).packets(id, b, now),
        a.len() == 1 && !turn.stopped ==> turn.packets(id, a, now) == turn.packet(
            id,
            turn.state.ibufs.at(id).client_id,
            a[0],
            now,
        ),
    decreases b.len(),
{
    if b.len() == 0 {
        assert(a + b =~= a);
    } else {
        assert((a + b).drop_last() =~= a + b.drop_last());
        law_batch_in_parts(turn, id, a, b.drop_last(), now);
        lemma_packets_inboxes(turn, id, a, now);
    }
    if a.len() == 1 {
        assert(a.drop_last() =~= Seq::<Packet>::empty());
        assert(turn.packets(id, a.drop_last(), now) == turn);
    }
}

/// The filters that a packet names.
pub open spec fn named(filters: Seq<String>) -> Set<Seq<char>> {
    Set::new(|f: Seq<char>| exists|i: int| 0 <= i < filters.len() && #[trigger] filters[i]@ == f)
}

proof fn lemma_named(filters: Seq<String>, f: Seq<char>)
    requires
        filters.len() > 0,
    ensures
        named(filters).contains(f) <==> named(filters.drop_last()).contains(f)
            || filters.last()@ == f,
{
    let shorter = filters.drop_last();
    if named(shorter).contains(f) {
        let i = choose|i: int| 0 <= i < shorter.len() && #[trigger] shorter[i]@ == f;
        assert(filters[i]@ == f);
    }
    if named(filters).contains(f) {
        let i = choose|i: int| 0 <= i < filters.len() && #[trigger] filters[i]@ == f;
        if i < shorter.len() {
            assert(shorter[i]@ == f);
        }
    }
    assert(filters[filters.len() - 1]@ == filters.last()@);
}

/// What is left of the subscriptions of a connection after it gave up filters.
proof fn lemma_unsubscribing_lists(
    from: Unsubscribing,
    id: ConnectionId,
    filters: Seq<String>,
    pkid: u16,
    f: Seq<char>,
    other: ConnectionId,
)
    requires
        from.state.inv(),
        from.state.live(id),
    ensures
        ({
            let after = from.filters(id, filters, pkid).state;
            let before = from.state;
            let gone = named(filters);
            let acks = before.ackslog.at(id).committed;
            let left = after.ackslog.at(id).committed;
            let n = gone.intersect(before.connections.at(id).subscriptions).len();
            &&& after.inv()
            &&& after.live(id)
            &&& gone.finite()
            &&& lists(after.subscription_map, f, other) <==> lists(
                before.subscription_map,
                f,
                other,
            ) && !(other == id && gone.contains(f))
            &&& after.connections.at(id).subscriptions == before.connections.at(
                id,
            ).subscriptions.difference(gone)
            &&& after.notifications == before.notifications
            &&& left.len() == acks.len() + n
            &&& acks.is_prefix_of(left)
            &&& forall|k: int|
                acks.len() <= k < left.len() ==> #[trigger] left[k] == AckView::UnsubAck(
                    pkid,
                    Seq::empty(),
                )
            &&& from.filters(id, filters, pkid).any <==> from.any || n > 0
            &&& after.live(other) == before.live(other)
            &&& other != id && before.live(other) ==> {
                &&& after.ackslog.at(other) == before.ackslog.at(other)
                &&& after.scheduler.trackers.at(other) == before.scheduler.trackers.at(other)
                &&& after.connections.at(other) == before.connections.at(other)
            }
            &&& before.live(other) && !(other == id && gone.contains(f)) ==> after.asked(
                other,
                on(f),
            ) == before.asked(other, on(f))
            &&& gone.contains(f) && before.connections.at(id).subscriptions.contains(f) ==> {
                &&& asking(after.scheduler.trackers.at(id).data_requests, on(f)) == 0
                &&& asking(parked(after.datalog.native, id), on(f)) == 0
            }
        }),
    decreases filters.len(),
{
    let before = from.state;
    assert(before.connections.has(id));
    if filters.len() == 0 {
        assert(named(filters) =~= Set::<Seq<char>>::empty());
        assert(named(filters).intersect(before.connections.at(id).subscriptions) =~= Set::<
            Seq<char>,
        >::empty());
        assert(before.connections.at(id).subscriptions.difference(named(filters))
            =~= before.connections.at(id).subscriptions);
    } else {
        let shorter = filters.drop_last();
        let last = filters.last()@;
        let mid = from.filters(id, shorter, pkid).state;
        lemma_unsubscribing_lists(from, id, shorter, pkid, f, other);
        lemma_unsubscribing_lists(from, id, shorter, pkid, last, id);
        assert forall|g: Seq<char>| #[trigger] named(filters).contains(g) <==> named(
            shorter,
        ).contains(g) || g == last by {
            lemma_named(filters, g);
        }
        assert(named(filters) =~= named(shorter).insert(last));
        let subscriptions = before.connections.at(id).subscriptions;
        let was = named(shorter).intersect(subscriptions);
        let is = named(filters).intersect(subscriptions);
        mid.lemma_unsubscribed(id, last, pkid);
        let after = mid.unsubscribed(id, last, pkid);
        assert(mid.connections.has(id));
        assert(mid.ackslog.has(id));
        assert(mid.scheduler.trackers.has(id));
        if mid.live(other) {
            assert(mid.connections.has(other));
            assert(mid.ackslog.has(other));
            assert(mid.scheduler.trackers.has(other));
        }
        assert(subscribes(mid.connections, last, id) == lists(mid.subscription_map, last, id));
        if lists(mid.subscription_map, last, id) {
            law_unsubscription(mid, id, last, pkid, 0, 0, other, f);
            law_unsubscription(mid, id, last, pkid, 0, 0, id, f);
            assert(after.asked(id, on(f)) >= asking(
                after.scheduler.trackers.at(id).data_requests,
                on(f),
            ) + asking(parked(after.datalog.native, id), on(f)) + asking(
                requests_of(after.notifications, id),
                on(f),
            ));
            assert(is =~= was.insert(last));
            assert(!was.contains(last));
            assert(after.connections.at(id).subscriptions =~= subscriptions.difference(
                named(filters),
            ));
            let acks = before.ackslog.at(id).committed;
            let left = after.ackslog.at(id).committed;
            assert forall|k: int| acks.len() <= k < left.len() implies #[trigger] left[k]
                == AckView::UnsubAck(pkid, Seq::empty()) by {
                if k < left.len() - 1 {
                    assert(left[k] == mid.ackslog.at(id).committed[k]);
                }
            }
        } else {
            assert(is =~= was);
            assert(after.connections.at(id).subscriptions =~= subscriptions.difference(
                named(filters),
            ));
        }
    }
}

/// After a packet that gives up filters its connection is listed under none of
/// them, is subscribed to none of them, asks for none of them and waits for none
/// of them, however many there are; and for each that it was subscribed to it
/// gets one ack under the packet id. All its other subscriptions are as they
/// were, and so is everything of other connections.
pub proof fn law_filters_are_given_up(
    turn: Turn,
    id: ConnectionId,
    client_id: Seq<char>,
    pkid: u16,
    filters: Seq<String>,
    i: int,
    f: Seq<char>,
    other: ConnectionId,
    k: int,
)
    requires
        turn.ok(id),
    ensures
        ({
            let before = turn.state;
            let end = turn.unsubscribe(id, client_id, pkid, filters);
            let after = end.state;
            let acks = before.ackslog.at(id).committed;
            let left = after.ackslog.at(id).committed;
            let old = before.connections.at(id).subscriptions;
            let new = after.connections.at(id).subscriptions;
            let requests = after.scheduler.trackers.at(id).data_requests;
            let waiting = parked(after.datalog.native, id);
            &&& 0 <= i < filters.len() ==> {
                &&& !lists(after.subscription_map, filters[i]@, id)
                &&& !new.contains(filters[i]@)
            }
            &&& 0 <= i < filters.len() && old.contains(filters[i]@) ==> {
                &&& 0 <= k < requests.len() ==> requests[k].filter@ != filters[i]@
                &&& 0 <= k < waiting.len() ==> waiting[k].filter@ != filters[i]@
            }
            &&& !named(filters).contains(f) ==> {
                &&& lists(after.subscription_map, f, id) == lists(before.subscription_map, f, id)
                &&& new.contains(f) == old.contains(f)
                &&& after.asked(id, on(f)) == before.asked(id, on(f))
            }
            &&& left.len() == acks.len() + named(filters).intersect(old).len()
            &&& 0 <= k < acks.len() ==> left[k] == acks[k]
            &&& acks.len() <= k < left.len() ==> left[k] == AckView::UnsubAck(pkid, Seq::empty())
            &&& end.force_ack <==> turn.force_ack || left.len() > acks.len()
            &&& end.new_data
            &&& end.stopped == turn.stopped
            &&& end.disconnect == turn.disconnect
            &&& after.notifications == before.notifications
            &&& other != id && before.live(other) ==> {
                &&& lists(after.subscription_map, f, other) == lists(
                    before.subscription_map,
                    f,
                    other,
                )
                &&& after.asked(other, on(f)) == before.asked(other, on(f))
                &&& after.ackslog.at(other) == before.ackslog.at(other)
                &&& after.scheduler.trackers.at(other) == before.scheduler.trackers.at(other)
                &&& after.connections.at(other) == before.connections.at(other)
            }
        }),
{
    let from = Unsubscribing { state: turn.state, any: false };
    let done = from.filters(id, filters, pkid);
    lemma_unsubscribing_lists(from, id, filters, pkid, f, id);
    lemma_unsubscribing_lists(from, id, filters, pkid, f, other);
    if 0 <= i < filters.len() {
        lemma_unsubscribing_lists(from, id, filters, pkid, filters[i]@, id);
        assert(named(filters).contains(filters[i]@));
    }
    let after = turn.unsubscribe(id, client_id, pkid, filters).state;
    if 0 <= i < filters.len() && turn.state.connections.at(id).subscriptions.contains(
        filters[i]@,
    ) {
        let requests = after.scheduler.trackers.at(id).data_requests;
        let waiting = parked(after.datalog.native, id);
        if 0 <= k < requests.len() {
            lemma_asking_once(requests, k);
        }
        if 0 <= k < waiting.len() {
            lemma_asking_once(waiting, k);
        }
    }
    assert(after.asked(id, on(f)) == done.state.asked(id, on(f)));
    assert(after.asked(other, on(f)) == done.state.asked(other, on(f)));
}

/// A publish that is refused is refused for the first of these reasons that
/// holds: its topic cannot be read, it is not the client's to use, or no filter
/// selects it and the client may not bring filters of its own. In the last case
/// it is retained all the same, where it asks for that; otherwise nothing that is
/// retained changes. One that is taken in is told the place behind it in the last
/// of the logs it went to.
pub proof fn law_refused_publish_is_told_why(
    datalog: DataLogState,
    connection: ConnectionState,
    publish: Publish,
    props: Option<PublishProperties>,
    now: Instant,
    last: int,
    one: RetainedView,
)
    requires
        datalog.wf(),
        datalog.native.len() < usize::MAX,
    ensures
        ({
            let bytes = bytes_content(publish.topic);
            let topic = decode_utf8(bytes);
            let done = append_publish(datalog, connection, publish, props, now);
            let outside = datalog.config.validate_tenant_prefix && connection.tenant_prefix is Some
                && !connection.tenant_prefix->0@.is_prefix_of(topic);
            let selected = exists|i: int|
                0 <= i < datalog.native.len() && topic_matches(
                    topic,
                    (#[trigger] datalog.native[i]).filter,
                );
            &&& !valid_utf8(bytes) ==> {
                &&& done.outcome matches Err(RouterErrorView::NonUtf8Topic(_))
                &&& done.datalog == datalog
            }
            &&& valid_utf8(bytes) && outside ==> {
                &&& done.outcome == Err::<Offset, RouterErrorView>(
                    RouterErrorView::BadTenant(connection.tenant_prefix->0@, topic),
                )
                &&& done.datalog == datalog
            }
            &&& valid_utf8(bytes) && !outside && !selected && !connection.dynamic_filters ==> {
                &&& done.outcome == Err::<Offset, RouterErrorView>(
                    RouterErrorView::NoMatchingFilters(topic),
                )
                &&& done.datalog.native == datalog.native
                &&& one.topic == topic && bytes_content(publish.payload).len() > 0
                    && publish.retain ==> done.datalog.retained.contains(one) == (one
                    == RetainedView { topic, publish, props })
                &&& one.topic == topic && bytes_content(publish.payload).len() == 0
                    ==> !done.datalog.retained.contains(one)
                &&& one.topic != topic ==> done.datalog.retained.contains(one)
                    == datalog.retained.contains(one)
            }
            &&& valid_utf8(bytes) && !outside && 0 <= last < datalog.native.len()
                && topic_matches(topic, datalog.native[last].filter) && (forall|i: int|
                last < i < datalog.native.len() ==> !topic_matches(
                    topic,
                    (#[trigger] datalog.native[i]).filter,
                )) ==> done.outcome == Ok::<Offset, RouterErrorView>(
                done.datalog.native[last].log.next_offset(),
            )
        }),
{
    let topic = decode_utf8(bytes_content(publish.topic));
    let native = datalog.native;
    let idxs = matching(native, topic);
    lemma_matching(native, topic);
    law_retained_is_the_last(datalog, topic, publish, props, one);
    if idxs.len() > 0 {
        let end = idxs.last();
        assert(idxs[idxs.len() - 1] == end);
        assert(topic_matches(topic, native[end as int].filter));
        if 0 <= last < native.len() && topic_matches(topic, native[last].filter) && (forall|i: int|
            last < i < native.len() ==> !topic_matches(topic, (#[trigger] native[i]).filter)) {
            assert(native[(last as usize) as int] == native[last]);
            assert(idxs.contains(last as usize));
            let k = choose|k: int| 0 <= k < idxs.len() && idxs[k] == last as usize;
            assert(end <= last);
            assert(k < idxs.len() - 1 ==> idxs[k] < idxs[idxs.len() - 1]);
            assert(end == last);
        }
    } else if 0 <= last < native.len() && topic_matches(topic, native[last].filter) {
        assert(native[(last as usize) as int] == native[last]);
        assert(idxs.contains(last as usize));
    }
}

/// What a client is answered that wants to subscribe: a filter outside the prefix
/// of its tenant is refused for that, the strongest quality of service is not to
/// be had, and filters that start with `$` are not either.
pub proof fn law_refused_filter_is_told_why(
    connection: ConnectionState,
    validate_tenant_prefix: bool,
    filter: Filter,
)
    ensures
        ({
            let verdict = subscription_verdict(connection, validate_tenant_prefix, filter);
            let path = filter.path@;
            let outside = validate_tenant_prefix && connection.tenant_prefix is Some
                && !connection.tenant_prefix->0@.is_prefix_of(path);
            &&& outside ==> verdict == Err::<(), RouterErrorView>(
                RouterErrorView::InvalidFilterPrefix(path),
            )
            &&& !outside && filter.qos is ExactlyOnce ==> verdict == Err::<(), RouterErrorView>(
                RouterErrorView::UnsupportedQoS(filter.qos),
            )
            &&& !outside && !(filter.qos is ExactlyOnce) && path.len() > 0 && path[0] == '$'
                ==> verdict == Err::<(), RouterErrorView>(
                RouterErrorView::InvalidFilterPrefix(path),
            )
            &&& !outside && !(filter.qos is ExactlyOnce) && !(path.len() > 0 && path[0] == '$')
                ==> verdict is Ok
        }),
{
}

/// Packets that no client has to send are passed over, and once a connection is
/// to end because of a packet nothing behind that is looked at.
pub proof fn law_other_packets_are_passed_over(
    turn: Turn,
    id: ConnectionId,
    client_id: Seq<char>,
    packet: Packet,
    now: Instant,
)
    requires
        turn.stopped || packet is PubComp || packet is ConnAck || packet is SubAck
            || packet is UnsubAck || packet is PingResp || (packet matches Packet::PubRel(
            _,
            Some(_),
        )),
    ensures
        turn.packet(id, client_id, packet, now) == turn,
{
}

} // verus!
