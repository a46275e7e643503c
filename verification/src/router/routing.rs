//! The router and its handlers.
use super::alertlog::{append_to_alertlog, Alert, AlertEvent, AlertLog, AlertView};
use super::commit::append_to_commitlog;
use super::datalog::DataLog;
use super::events::{
    after_receipt, alerts_for, deliveries, lists_keys, opened, read_on, view_deliveries, Event,
    GetMeter, Meter, MeterView, MetricsReply, MetricsRequest, Progress, Received, Reply,
    ALERT_READ_LEN, MAX_POLLS, MAX_TURNS,
};
use super::graveyard::{Graveyard, SavedState};
use super::delivery::{
    ack_device_data, forward_device_data, retrieve_shadow, serve, with_shadow, ConsumeStatus,
};
use super::errors::{RouterError, RouterErrorView};
use super::invariants::{
    lemma_alert_filter, lemma_extend_requests, lemma_new_inv, lemma_pause, lemma_polled,
    lemma_trackv, request_ok, requests_ok, waiters_ok,
};
use super::iobufs::{Incoming, IncomingState, Outgoing, OutgoingState};
use super::logs::{lemma_find_log, AckLog};
use super::messages::{
    AckView, Connection, ConnectionId, DataRequest, Notification, RouterConfig, RouterMeter,
    ShadowRequest, MAX_SCHEDULE_ITERATIONS,
};
use super::scheduler::{PauseReason, ScheduleReason, Scheduler, Tracker, TrackerState};
use super::state::{
    all_rewound, connection_event, listed, lists, notified, rewound, unsubscribed, RouterState, Subscribing,
    Turn, Unsubscribing,
};
use super::validate::{validate_clientid, validate_subscription};
use crate::arena::Arena;
use crate::clock::{instant_now, Moment};
use crate::protocol::{
    ConnAck, ConnectReturnCode, Filter, Packet, PubAck, PubAckReason, PubComp, PubCompReason,
    PubRel, PubRelReason, Publish, PublishProperties, QoS, SubAck, Subscribe, SubscribeReasonCode,
    UnsubAck, Unsubscribe,
};
use crate::registry::{IdSet, NameSet, Registry};
use crate::segments::log::{view_entries, Entry, Offset};
use crate::text;
use crate::views::{group_views, views};
use std::collections::VecDeque;
use std::time::Instant;
use vstd::prelude::*;

verus! {

/// Someone who wants to know of alerts: the filters, and how far the log of
/// each was read.
pub struct AlertLink {
    pub filters: Vec<(String, Offset)>,
}

pub open spec fn view_offsets(filters: Seq<(String, Offset)>) -> Seq<(Seq<char>, Offset)> {
    Seq::new(filters.len(), |i: int| (filters[i].0@, filters[i].1))
}

impl View for AlertLink {
    type V = Seq<(Seq<char>, Offset)>;

    open spec fn view(&self) -> Seq<(Seq<char>, Offset)> {
        view_offsets(self.filters@)
    }
}

pub struct Router {
    id: usize,
    config: RouterConfig,
    /// Saved state of clients that went away.
    graveyard: Graveyard,
    /// Those who want to know the meters.
    meters: Arena<()>,
    /// Those who want to know of alerts.
    alerts: Arena<AlertLink>,
    connections: Arena<Connection>,
    /// Connection ids by client id.
    connection_map: Registry<ConnectionId>,
    /// Connection ids by filter.
    subscription_map: Registry<IdSet>,
    ibufs: Arena<Incoming>,
    obufs: Arena<Outgoing>,
    datalog: DataLog,
    alertlog: AlertLog,
    ackslog: Arena<AckLog>,
    scheduler: Scheduler,
    /// Requests that waited for something that has come in.
    notifications: VecDeque<(ConnectionId, DataRequest)>,
    router_meters: RouterMeter,
}

impl View for Router {
    type V = RouterState;

    closed spec fn view(&self) -> RouterState {
        RouterState {
            id: self.id,
            config: self.config,
            graveyard: self.graveyard@,
            meters: self.meters@,
            alerts: self.alerts@,
            connections: self.connections@,
            connection_map: self.connection_map@,
            subscription_map: self.subscription_map@,
            ibufs: self.ibufs@,
            obufs: self.obufs@,
            datalog: self.datalog@,
            alertlog: self.alertlog@,
            ackslog: self.ackslog@,
            scheduler: self.scheduler@,
            notifications: self.notifications@,
            router_meters: self.router_meters,
        }
    }
}

/// Hands the requests back to their connections and queues these.
fn settle(
    scheduler: &mut Scheduler,
    notifications: &mut VecDeque<(ConnectionId, DataRequest)>,
)
    requires
        old(scheduler).wf(),
    ensures
        final(scheduler).wf(),
        final(scheduler)@ == notified(old(scheduler)@, old(notifications)@),
        final(notifications)@ == Seq::<(ConnectionId, DataRequest)>::empty(),
{
    let ghost before = scheduler@;
    let ghost all = notifications@;
    let ghost mut done: int = 0;
    proof {
        assert(all.take(0) =~= Seq::<(ConnectionId, DataRequest)>::empty());
        assert(all.skip(0) =~= all);
    }
    while notifications.len() > 0
        invariant
            0 <= done <= all.len(),
            scheduler.wf(),
            notifications@ == all.skip(done),
            scheduler@ == notified(before, all.take(done)),
        decreases notifications.len(),
    {
        assert(notifications@.len() == all.len() - done);
        let (id, request) = notifications.pop_front().unwrap();
        proof {
            assert((id, request) == all[done]);
            assert(all.take(done + 1).drop_last() =~= all.take(done));
            assert(all.skip(done).skip(1) =~= all.skip(done + 1));
            done = done + 1;
        }
        scheduler.track(id, request);
        scheduler.reschedule(id, ScheduleReason::FreshData);
    }
    assert(all.take(done) =~= all);
    assert(notifications@ =~= Seq::<(ConnectionId, DataRequest)>::empty());
}

/// Moves requests back to what was sent and is not acked.
fn rewind(requests: VecDeque<DataRequest>, outgoing: &Outgoing) -> (again: VecDeque<DataRequest>)
    ensures
        again@ == all_rewound(requests@, outgoing@.inflight),
{
    let mut again: VecDeque<DataRequest> = VecDeque::new();
    let mut i: usize = 0;
    while i < requests.len()
        invariant
            i <= requests.len(),
            again@ == all_rewound(requests@, outgoing@.inflight).take(i as int),
        decreases requests.len() - i,
    {
        let mut request = requests[i].clone();
        if let Some(cursor) = outgoing.retransmission(request.filter_idx) {
            request.cursor = cursor;
        }
        assert(request == rewound(requests@[i as int], outgoing@.inflight));
        again.push_back(request);
        i = i + 1;
        assert(again@ =~= all_rewound(requests@, outgoing@.inflight).take(i as int));
    }
    assert(again@ =~= all_rewound(requests@, outgoing@.inflight));
    again
}

/// Takes a connection out of the lists of some filters.
fn unlist(subscription_map: &mut Registry<IdSet>, filters: &NameSet, id: ConnectionId)
    requires
        old(subscription_map).wf(),
    ensures
        final(subscription_map).wf(),
        final(subscription_map)@ == unsubscribed(old(subscription_map)@, filters@, id),
{
    let ghost before = subscription_map@;
    let mut i: usize = 0;
    proof {
        subscription_map.lemma_order();
    }
    while i < subscription_map.len()
        invariant
            i <= subscription_map.order().len(),
            subscription_map.wf(),
            subscription_map@.dom() == before.dom(),
            forall|name: Seq<char>| #[trigger]
                subscription_map@.contains_key(name) <==> subscription_map.order().contains(name),
            subscription_map.order().no_duplicates(),
            forall|j: int|
                0 <= j < i ==> subscription_map@[#[trigger] subscription_map.order()[j]]
                    == unsubscribed(before, filters@, id)[subscription_map.order()[j]],
            forall|j: int|
                i <= j < subscription_map.order().len()
                    ==> subscription_map@[#[trigger] subscription_map.order()[j]]
                    == before[subscription_map.order()[j]],
        decreases subscription_map.order().len() - i,
    {
        let ghost name = subscription_map.order()[i as int];
        let listed = filters.contains(subscription_map.name_at(i));
        assert(subscription_map.order().contains(name));
        assert(before.contains_key(name));
        if listed {
            subscription_map.at_mut(i).remove(id);
            assert(subscription_map@.dom() =~= before.dom());
        }
        i = i + 1;
    }
    proof {
        assert forall|name: Seq<char>| #[trigger] subscription_map@.contains_key(name) implies subscription_map@[name]
            == unsubscribed(before, filters@, id)[name] by {
            assert(subscription_map.order().contains(name));
            let j = choose|j: int|
                0 <= j < subscription_map.order().len() && subscription_map.order()[j] == name;
            assert(subscription_map@[subscription_map.order()[j]] == unsubscribed(
                before,
                filters@,
                id,
            )[name]);
        }
        assert forall|name: Seq<char>| #[trigger] subscription_map@.contains_key(name) == unsubscribed(
            before,
            filters@,
            id,
        ).contains_key(name) by {
            assert(subscription_map@.dom().contains(name) == before.dom().contains(name));
        }
        assert(subscription_map@ =~= unsubscribed(before, filters@, id));
    }
}

/// Some of a row of names.
spec fn first_names(names: Seq<String>, n: int) -> Set<Seq<char>> {
    Set::new(|name: Seq<char>| exists|i: int| 0 <= i < n && #[trigger] names[i]@ == name)
}

/// Puts a connection in the lists of some filters.
fn enlist(subscription_map: &mut Registry<IdSet>, filters: &NameSet, id: ConnectionId)
    requires
        old(subscription_map).wf(),
    ensures
        final(subscription_map).wf(),
        final(subscription_map)@ == listed(old(subscription_map)@, filters@, id),
{
    let ghost before = subscription_map@;
    let names = filters.names();
    let mut i: usize = 0;
    assert(subscription_map@ =~= listed(before, first_names(names@, 0), id));
    while i < names.len()
        invariant
            i <= names.len(),
            subscription_map.wf(),
            subscription_map@ == listed(before, first_names(names@, i as int), id),
        decreases names.len() - i,
    {
        let ghost was = subscription_map@;
        let ghost seen = first_names(names@, i as int);
        let ghost name = names@[i as int]@;
        match subscription_map.find(&names[i]) {
            Some(at) => {
                subscription_map.at_mut(at).insert(id);
            },
            None => {
                let mut connections = IdSet::new();
                connections.insert(id);
                subscription_map.put(names[i].clone(), connections);
            },
        }
        proof {
            let more = first_names(names@, i + 1);
            assert forall|n: Seq<char>| #[trigger] more.contains(n) <==> seen.contains(n) || n
                == name by {
                if seen.contains(n) {
                    let j = choose|j: int| 0 <= j < i && #[trigger] names@[j]@ == n;
                    assert(names@[j]@ == n);
                }
                assert(names@[i as int]@ == name);
            }
            assert(subscription_map@[name] =~= listed(before, more, id)[name]);
            assert(subscription_map@ =~= listed(before, more, id));
        }
        i = i + 1;
    }
    proof {
        assert(first_names(names@, names@.len() as int) =~= filters@);
    }
}

impl Router {
    /// The tables and logs are in good shape.
    closed spec fn parts_wf(&self) -> bool {
        &&& self.graveyard.wf()
        &&& self.meters.wf()
        &&& self.alerts.wf()
        &&& self.connections.wf()
        &&& self.connection_map.wf()
        &&& self.subscription_map.wf()
        &&& self.ibufs.wf()
        &&& self.obufs.wf()
        &&& self.ackslog.wf()
        &&& self.scheduler.wf()
    }

    /// The router is in order, though some may still have to be told of what
    /// has come in.
    closed spec fn ok(&self) -> bool {
        &&& self.parts_wf()
        &&& self@.inv()
    }

    /// The router is in order.
    pub closed spec fn wf(&self) -> bool {
        &&& self.ok()
        &&& self@.notifications.len() == 0
    }

    pub proof fn lemma_wf(&self)
        requires
            self.wf(),
        ensures
            self@.inv(),
            self@.notifications.len() == 0,
    {
    }

    pub fn new(router_id: usize, config: RouterConfig) -> (router: Router)
        requires
            config.valid(),
        ensures
            router.wf(),
            router@ == RouterState::new(router_id, config),
    {
        let max_connections = config.max_connections;
        let router = Router {
            id: router_id,
            config,
            graveyard: Graveyard::new(),
            meters: Arena::with_capacity(10),
            alerts: Arena::with_capacity(10),
            connections: Arena::with_capacity(max_connections),
            connection_map: Registry::new(),
            subscription_map: Registry::new(),
            ibufs: Arena::with_capacity(max_connections),
            obufs: Arena::with_capacity(max_connections),
            datalog: DataLog::new(config),
            alertlog: AlertLog::new(config),
            ackslog: Arena::with_capacity(max_connections),
            scheduler: Scheduler::with_capacity(max_connections),
            notifications: VecDeque::new(),
            router_meters: RouterMeter {
                router_id,
                total_connections: 0,
                total_subscriptions: 0,
                total_publishes: 0,
                failed_publishes: 0,
            },
        };
        proof {
            lemma_new_inv(router_id, config);
            assert(router@ =~= RouterState::new(router_id, config));
        }
        router
    }

    fn alert(&mut self, alert: Alert)
        requires
            old(self).ok(),
        ensures
            final(self).ok(),
            final(self)@ == old(self)@.with_alert(alert@),
    {
        proof {
            self@.lemma_with_alert(alert@);
        }
        let _offset = append_to_alertlog(alert, &mut self.alertlog);
        assert(self@ =~= old(self)@.with_alert(alert@));
    }

    /// Publishes the last will of a connection at a given time.
    pub fn handle_last_will_at(&mut self, id: ConnectionId, now: Instant)
        requires
            old(self).wf(),
            old(self)@.live(id),
        ensures
            final(self).wf(),
            final(self)@ == old(self)@.last_will(id, now),
    {
        let ghost before = self@;
        assert(before.connections.has(id));
        let will = self.connections.at_mut(id).last_will.take();
        let will = match will {
            Some(will) => will,
            None => {
                assert(self@.connections.rows =~= before.connections.rows);
                return;
            },
        };
        let publish = Publish {
            dup: false,
            qos: will.qos,
            retain: will.retain,
            topic: will.topic,
            pkid: 0,
            payload: will.message,
        };
        match append_to_commitlog(
            id,
            publish,
            None,
            &mut self.datalog,
            &mut self.notifications,
            &self.connections,
            now,
        ) {
            Ok(_offset) => {
                settle(&mut self.scheduler, &mut self.notifications);
            },
            Err(_error) => {
                self.router_meters.failed_publishes =
                self.router_meters.failed_publishes.wrapping_add(1);
            },
        }
        proof {
            assert(self@ =~= before.last_will(id, now));
            before.lemma_last_will(id, now);
        }
    }
}

impl Router {
    /// Ends a connection at a given time. The last will is published where that
    /// is asked for, and the session is saved.
    pub fn handle_disconnection_at(
        &mut self,
        id: ConnectionId,
        execute_last_will: bool,
        moment: &Moment,
    )
        requires
            old(self).wf(),
        ensures
            final(self).wf(),
            final(self)@ == old(self)@.disconnected(id, execute_last_will, *moment),
    {
        if !self.obufs.contains(id) {
            return;
        }
        let client_id = self.obufs.at(id).client_id.clone();
        self.alert(Alert::event(client_id, AlertEvent::Disconnect));
        if execute_last_will {
            self.handle_last_will_at(id, moment.now);
        }
        proof {
            old(self)@.lemma_leaving(id, execute_last_will, moment.now);
        }
        self.depart(id, moment.time.as_str());
    }

    /// Takes a connection out of all tables and saves its session.
    fn depart(&mut self, id: ConnectionId, time: &str)
        requires
            old(self).ok(),
            old(self)@.live(id),
            old(self)@.notifications.len() == 0,
        ensures
            final(self).ok(),
            final(self)@ == old(self)@.departed(id, time@),
            final(self)@.notifications.len() == 0,
    {
        let ghost before = self@;
        proof {
            assert(before.connections.has(id));
            assert(before.ibufs.has(id));
            assert(before.ackslog.has(id));
            assert(before.scheduler.trackers.has(id));
            before.lemma_departed(id, time@);
            before.lemma_live_counted(id);
        }
        let client_id = self.obufs.at(id).client_id.clone();
        let mut connection = self.connections.remove(id);
        let _incoming = self.ibufs.remove(id);
        let outgoing = self.obufs.remove(id);
        let mut tracker = self.scheduler.remove(id);
        self.connection_map.remove(&client_id);
        self.ackslog.remove(id);
        let mut inflight_data_requests = self.datalog.clean(id);
        unlist(&mut self.subscription_map, &connection.subscriptions, id);
        let event = text::join("disconnection at ", time);
        connection.events.record(event);
        if !connection.clean {
            let mut i: usize = 0;
            let ghost requests = tracker.data_requests@;
            let ghost waiting = inflight_data_requests@;
            assert(requests + waiting.take(0) =~= requests);
            while i < inflight_data_requests.len()
                invariant
                    i <= inflight_data_requests.len(),
                    inflight_data_requests@ == waiting,
                    tracker@ == (TrackerState {
                        data_requests: requests + waiting.take(i as int),
                        ..before.scheduler.trackers.at(id)
                    }),
                decreases inflight_data_requests.len() - i,
            {
                tracker.register_data_request(inflight_data_requests[i].clone());
                i = i + 1;
                assert((requests + waiting.take(i - 1)).push(waiting[i - 1]) =~= requests
                    + waiting.take(i as int));
            }
            assert(waiting.take(i as int) =~= waiting);
            tracker.data_requests = rewind(tracker.data_requests, &outgoing);
            self.graveyard.save(tracker, connection.subscriptions, connection.events, None);
        } else {
            self.graveyard.save(Tracker::new(client_id), NameSet::new(), connection.events, None);
        }
        self.router_meters.total_connections = self.router_meters.total_connections - 1;
        assert(self@ =~= before.departed(id, time@));
    }

    /// Takes in a connection at a given time.
    pub fn handle_new_connection_at(
        &mut self,
        connection: Connection,
        incoming: Incoming,
        outgoing: Outgoing,
        moment: &Moment,
    )
        requires
            old(self).wf(),
        ensures
            final(self).wf(),
            final(self)@ == old(self)@.connected(connection@, incoming@, outgoing@, *moment),
    {
        let ghost before = self@;
        let client_id = outgoing.client_id.clone();
        if validate_clientid(client_id.as_str()).is_err() {
            return;
        }
        if let Some(connection_id) = self.connection_map.get(&client_id) {
            let connection_id = *connection_id;
            self.handle_disconnection_at(connection_id, true, moment);
        }
        proof {
            before.lemma_without_duplicate(client_id@, *moment);
        }
        if self.connections.len() >= self.config.max_connections {
            return;
        }
        self.register(connection, incoming, outgoing, moment);
    }

    fn register(
        &mut self,
        connection: Connection,
        incoming: Incoming,
        outgoing: Outgoing,
        moment: &Moment,
    )
        requires
            old(self).ok(),
            !old(self)@.connection_map.contains_key(outgoing@.client_id),
            old(self)@.connections.count() < old(self)@.config.max_connections,
        ensures
            final(self).ok(),
            final(self)@ == old(self)@.admitted(connection@, incoming@, outgoing@, *moment),
    {
        let ghost before = self@;
        proof {
            before.lemma_admitted(connection@, incoming@, outgoing@, *moment);
            before.lemma_same_keys();
        }
        let client_id = outgoing.client_id.clone();
        let mut connection = connection;
        let ghost given = connection@;
        let saved = self.graveyard.retrieve_at(client_id.as_str(), moment.now);
        let clean_session = connection.clean;
        let previous_session = saved.is_some();
        let saved = match saved {
            Some(saved) => saved,
            None => SavedState::new(client_id.clone()),
        };
        let tracker = if !clean_session {
            connection.subscriptions = saved.subscriptions;
            connection.events = saved.metrics;
            saved.tracker
        } else {
            connection.events = saved.metrics;
            Tracker::new(client_id.clone())
        };
        let mut event = text::join("connection at ", moment.time.as_str());
        event.append(", clean = ");
        event.append(
            if clean_session {
                "true"
            } else {
                "false"
            },
        );
        assert(event@ == connection_event(moment.time@, clean_session));
        connection.events.record(event);
        let subscriptions = connection.subscriptions.copy();
        let connection_id = self.connections.insert(connection);
        enlist(&mut self.subscription_map, &subscriptions, connection_id);
        let incoming_id = self.ibufs.insert(incoming);
        let outgoing_id = self.obufs.insert(outgoing);
        assert(incoming_id == connection_id);
        assert(outgoing_id == connection_id);
        self.connection_map.put(client_id.clone(), connection_id);
        let ack = ConnAck {
            session_present: !clean_session && previous_session,
            code: ConnectReturnCode::Success,
        };
        let mut ackslog = AckLog::new();
        ackslog.connack(connection_id, ack);
        let acks_id = self.ackslog.insert(ackslog);
        assert(acks_id == connection_id);
        let tracker_id = self.scheduler.add(tracker);
        assert(tracker_id == connection_id);
        let _offset = append_to_alertlog(
            Alert::event(client_id, AlertEvent::Connect),
            &mut self.alertlog,
        );
        self.scheduler.reschedule(connection_id, ScheduleReason::Init);
        self.router_meters.total_connections = self.router_meters.total_connections + 1;
        assert(self@ =~= before.admitted(given, incoming@, outgoing@, *moment));
    }
}

/// What is to be done after the packets of a connection were handled.
#[derive(Debug, Clone, Copy, PartialEq, Eq, Structural)]
struct Flags {
    /// Acks are pending for the connection.
    force_ack: bool,
    /// Something has come in that others may wait for.
    new_data: bool,
    disconnect: bool,
    execute_will: bool,
    /// The packets that are left are dropped.
    stopped: bool,
}

/// How far a turn has come.
spec fn turn_at(state: RouterState, flags: Flags) -> Turn {
    Turn {
        state,
        force_ack: flags.force_ack,
        new_data: flags.new_data,
        disconnect: flags.disconnect,
        execute_will: flags.execute_will,
        stopped: flags.stopped,
    }
}

impl Router {
    fn on_publish(
        &mut self,
        id: ConnectionId,
        publish: Publish,
        props: Option<PublishProperties>,
        now: Instant,
        flags: &mut Flags,
    )
        requires
            old(self).ok(),
            turn_at(old(self)@, *old(flags)).ok(id),
        ensures
            final(self).ok(),
            turn_at(final(self)@, *final(flags)).ok(id),
            turn_at(final(self)@, *final(flags)) == turn_at(old(self)@, *old(flags)).publish(
                id,
                publish,
                props,
                now,
            ),
    {
        let ghost before = self@;
        let ghost start = turn_at(self@, *flags);
        proof {
            assert(before.connections.has(id));
            assert(before.ackslog.has(id));
            assert(before.ibufs.has(id));
        }
        match publish.qos {
            QoS::AtLeastOnce => {
                let puback = PubAck { pkid: publish.pkid, reason: PubAckReason::Success };
                proof {
                    before.lemma_with_ack(id, AckView::PubAck(puback));
                }
                self.ackslog.at_mut(id).puback(puback);
                flags.force_ack = true;
                assert(self@ =~= before.with_ack(id, AckView::PubAck(puback)));
            },
            QoS::ExactlyOnce => {
                flags.disconnect = true;
                flags.stopped = true;
                return;
            },
            QoS::AtMostOnce => {},
        }
        let ghost acked = self@;
        self.router_meters.total_publishes = self.router_meters.total_publishes.wrapping_add(1);
        let ghost counted = self@;
        proof {
            acked.lemma_with_meters(counted.router_meters);
            assert(counted =~= RouterState { router_meters: counted.router_meters, ..acked });
        }
        match append_to_commitlog(
            id,
            publish.clone(),
            props,
            &mut self.datalog,
            &mut self.notifications,
            &self.connections,
            now,
        ) {
            Ok(_offset) => {
                flags.new_data = true;
                proof {
                    assert(self@ =~= counted.published(id, publish, props, now));
                    counted.lemma_published(id, publish, props, now);
                    let incoming = self@.ibufs.at(id);
                    self@.lemma_with_incoming(
                        id,
                        IncomingState {
                            meter: incoming.meter.register_publish(publish),
                            ..incoming
                        },
                    );
                }
                self.ibufs.at_mut(id).meter.register_publish(&publish);
            },
            Err(_error) => {
                proof {
                    assert(self@ =~= counted.published(id, publish, props, now));
                    counted.lemma_published(id, publish, props, now);
                }
                self.router_meters.failed_publishes =
                self.router_meters.failed_publishes.wrapping_add(1);
                flags.disconnect = true;
                flags.stopped = true;
            },
        }
        assert(turn_at(self@, *flags) =~= start.publish(id, publish, props, now));
    }

    /// Prepares a connection to get what comes in for a filter from now on.
    fn prepare_filter(
        &mut self,
        id: ConnectionId,
        cursor: Offset,
        filter_idx: usize,
        filter: String,
        qos: u8,
    )
        requires
            old(self).ok(),
            old(self)@.live(id),
            qos <= 1,
            filter_idx < old(self)@.datalog.native.len(),
            old(self)@.datalog.native[filter_idx as int].filter == filter@,
        ensures
            final(self).ok(),
            final(self)@ == old(self)@.prepared(id, cursor, filter_idx, filter, qos),
    {
        let ghost before = self@;
        proof {
            assert(before.connections.has(id));
            assert(before.ibufs.has(id));
            before.lemma_prepared(id, cursor, filter_idx, filter, qos);
        }
        match self.subscription_map.find(&filter) {
            Some(i) => {
                self.subscription_map.at_mut(i).insert(id);
            },
            None => {
                let mut connections = IdSet::new();
                connections.insert(id);
                self.subscription_map.put(filter.clone(), connections);
            },
        }
        let fresh = self.connections.at_mut(id).subscriptions.insert(filter.clone());
        if fresh {
            let request = DataRequest {
                filter: filter.clone(),
                filter_idx,
                qos,
                cursor,
                read_count: 0,
                max_count: 100,
            };
            self.scheduler.track(id, request);
            self.scheduler.reschedule(id, ScheduleReason::NewFilter);
        }
        self.ibufs.at_mut(id).meter.register_subscription(filter);
        assert(self@ =~= before.prepared(id, cursor, filter_idx, filter, qos));
    }

    /// Subscribes a connection to a filter.
    fn subscribe(&mut self, id: ConnectionId, filter: &Filter)
        requires
            old(self).ok(),
            old(self)@.live(id),
            !(filter.qos is ExactlyOnce),
        ensures
            final(self).ok(),
            final(self)@ == old(self)@.subscribed(id, *filter),
            final(self)@.live(id),
    {
        let ghost before = self@;
        let (idx, cursor) = self.datalog.next_native_offset(filter.path.as_str());
        proof {
            before.lemma_ensured(filter.path@);
            before.lemma_subscribed(id, *filter);
            assert(self@ =~= RouterState {
                datalog: before.datalog.ensure_log(filter.path@),
                ..before
            });
        }
        self.prepare_filter(id, cursor, idx, filter.path.clone(), filter.qos.level());
        self.datalog.handle_retained_messages(&filter.path, &mut self.notifications);
        assert(self@ =~= before.subscribed(id, *filter));
    }

    fn on_subscribe(
        &mut self,
        id: ConnectionId,
        client_id: &String,
        subscribe: Subscribe,
        flags: &mut Flags,
    )
        requires
            old(self).ok(),
            turn_at(old(self)@, *old(flags)).ok(id),
        ensures
            final(self).ok(),
            turn_at(final(self)@, *final(flags)).ok(id),
            turn_at(final(self)@, *final(flags)) == turn_at(old(self)@, *old(flags)).subscribe(
                id,
                client_id@,
                subscribe.pkid,
                subscribe.filters@,
            ),
    {
        let ghost from = Subscribing { state: self@, codes: Seq::empty(), refused: false };
        let ghost filters = subscribe.filters@;
        let mut return_codes: Vec<SubscribeReasonCode> = Vec::new();
        let mut refused = false;
        let mut i: usize = 0;
        assert(filters.take(0) =~= Seq::<Filter>::empty());
        while i < subscribe.filters.len() && !refused
            invariant
                i <= subscribe.filters.len(),
                filters == subscribe.filters@,
                self.ok(),
                self@.live(id),
                (Subscribing { state: self@, codes: return_codes@, refused }) == from.filters(
                    id,
                    filters.take(i as int),
                ),
            decreases subscribe.filters.len() - i,
        {
            let filter = &subscribe.filters[i];
            proof {
                assert(filters.take(i + 1).drop_last() =~= filters.take(i as int));
                assert(self@.connections.has(id));
            }
            if validate_subscription(
                self.connections.at(id),
                self.config.validate_tenant_prefix,
                filter,
            ).is_err() {
                refused = true;
            } else {
                self.subscribe(id, filter);
                let code = match filter.qos {
                    QoS::AtMostOnce => SubscribeReasonCode::QoS0,
                    QoS::AtLeastOnce => SubscribeReasonCode::QoS1,
                    QoS::ExactlyOnce => SubscribeReasonCode::QoS2,
                };
                return_codes.push(code);
            }
            i = i + 1;
        }
        proof {
            if refused {
                from.lemma_refused(id, filters, i as int);
            } else {
                assert(filters.take(i as int) =~= filters);
            }
        }
        if refused {
            flags.disconnect = true;
        }
        let pkid = subscribe.pkid;
        self.alert(Alert::event(client_id.clone(), AlertEvent::Subscribe(subscribe)));
        flags.new_data = true;
        let ghost alerted = self@;
        proof {
            assert(alerted.live(id));
            assert(alerted.connections.has(id));
            assert(alerted.ackslog.has(id));
            alerted.lemma_with_ack(id, AckView::SubAck(pkid, return_codes@));
        }
        let suback = SubAck { pkid, return_codes };
        self.ackslog.at_mut(id).suback(suback);
        flags.force_ack = true;
        assert(self@ =~= alerted.with_ack(id, AckView::SubAck(pkid, return_codes@)));
    }

    /// Ends the subscription of a connection to a filter. Says whether that is
    /// acked.
    fn unsubscribe(&mut self, id: ConnectionId, filter: &String, pkid: u16) -> (acked: bool)
        requires
            old(self).ok(),
            old(self)@.live(id),
        ensures
            final(self).ok(),
            final(self)@ == old(self)@.unsubscribed(id, filter@, pkid),
            final(self)@.live(id),
            acked == old(self)@.unsubscription_acked(id, filter@),
    {
        let ghost before = self@;
        proof {
            assert(before.connections.has(id));
            assert(before.ibufs.has(id));
            assert(before.ackslog.has(id));
            before.lemma_unsubscribed(id, filter@, pkid);
        }
        let i = match self.subscription_map.find(filter) {
            Some(i) => i,
            None => {
                return false;
            },
        };
        let removed = self.subscription_map.at_mut(i).remove(id);
        if !removed {
            proof {
                assert(before.subscription_map[filter@].remove(id)
                    =~= before.subscription_map[filter@]);
                assert(self@.subscription_map =~= before.subscription_map);
            }
            return false;
        }
        self.ibufs.at_mut(id).meter.unregister_subscription(filter);
        if !self.connections.at_mut(id).subscriptions.remove(filter) {
            proof {
                assert(before.connections.at(id).subscriptions.remove(filter@)
                    =~= before.connections.at(id).subscriptions);
                assert(self@.connections.rows =~= before.connections.rows);
                assert(self@ =~= before.unsubscribed(id, filter@, pkid));
            }
            return false;
        }
        self.ackslog.at_mut(id).unsuback(UnsubAck { pkid, reasons: Vec::new() });
        self.scheduler.untrack(id, filter);
        self.datalog.remove_waiters_for_id(id, filter);
        assert(self@ =~= before.unsubscribed(id, filter@, pkid));
        true
    }

    fn on_unsubscribe(
        &mut self,
        id: ConnectionId,
        client_id: &String,
        unsubscribe: Unsubscribe,
        flags: &mut Flags,
    )
        requires
            old(self).ok(),
            turn_at(old(self)@, *old(flags)).ok(id),
        ensures
            final(self).ok(),
            turn_at(final(self)@, *final(flags)).ok(id),
            turn_at(final(self)@, *final(flags)) == turn_at(old(self)@, *old(flags)).unsubscribe(
                id,
                client_id@,
                unsubscribe.pkid,
                unsubscribe.filters@,
            ),
    {
        let ghost from = Unsubscribing { state: self@, any: false };
        let ghost filters = unsubscribe.filters@;
        let pkid = unsubscribe.pkid;
        let mut any = false;
        let mut i: usize = 0;
        assert(filters.take(0) =~= Seq::<String>::empty());
        while i < unsubscribe.filters.len()
            invariant
                i <= unsubscribe.filters.len(),
                filters == unsubscribe.filters@,
                self.ok(),
                self@.live(id),
                (Unsubscribing { state: self@, any }) == from.filters(
                    id,
                    filters.take(i as int),
                    pkid,
                ),
            decreases unsubscribe.filters.len() - i,
        {
            proof {
                assert(filters.take(i + 1).drop_last() =~= filters.take(i as int));
            }
            if self.unsubscribe(id, &unsubscribe.filters[i], pkid) {
                any = true;
            }
            i = i + 1;
        }
        assert(filters.take(i as int) =~= filters);
        if any {
            flags.force_ack = true;
        }
        self.alert(Alert::event(client_id.clone(), AlertEvent::Unsubscribe(unsubscribe)));
        flags.new_data = true;
    }
}

impl Router {
    /// Takes an ack for the oldest publish to a connection.
    fn ack(&mut self, id: ConnectionId, pkid: u16, flags: &mut Flags)
        requires
            old(self).ok(),
            turn_at(old(self)@, *old(flags)).ok(id),
            !old(flags).stopped,
        ensures
            final(self).ok(),
            turn_at(final(self)@, *final(flags)).ok(id),
            turn_at(final(self)@, *final(flags)) == turn_at(old(self)@, *old(flags)).ack(id, pkid),
    {
        let ghost before = self@;
        proof {
            before.lemma_with_outgoing(id, before.obufs.at(id).acked());
        }
        if self.obufs.at_mut(id).register_ack(pkid).is_none() {
            flags.disconnect = true;
            flags.stopped = true;
        }
        assert(self@ =~= RouterState {
            obufs: before.obufs.set(id, before.obufs.at(id).acked()),
            ..before
        });
    }

    fn reschedule(&mut self, id: ConnectionId, reason: ScheduleReason)
        requires
            old(self).ok(),
        ensures
            final(self).ok(),
            final(self)@ == old(self)@.rescheduled(id, reason),
    {
        proof {
            self@.lemma_rescheduled(id, reason);
        }
        self.scheduler.reschedule(id, reason);
        assert(self@ =~= old(self)@.rescheduled(id, reason));
    }

    fn on_pubrel(&mut self, id: ConnectionId, pkid: u16, now: Instant, flags: &mut Flags)
        requires
            old(self).ok(),
            turn_at(old(self)@, *old(flags)).ok(id),
        ensures
            final(self).ok(),
            turn_at(final(self)@, *final(flags)).ok(id),
            turn_at(final(self)@, *final(flags)) == turn_at(old(self)@, *old(flags)).pubrel(
                id,
                pkid,
                now,
            ),
    {
        let ghost before = self@;
        let ghost acks = before.ackslog.at(id);
        let pubcomp = PubComp { pkid, reason: PubCompReason::Success };
        proof {
            assert(before.connections.has(id));
            assert(before.ackslog.has(id));
            before.lemma_with_acks(id, acks.commit(AckView::PubComp(pubcomp)).released());
        }
        let publish = self.ackslog.at_mut(id).pubcomp(pubcomp);
        let ghost released = self@;
        assert(released =~= RouterState {
            ackslog: before.ackslog.set(
                id,
                acks.commit(AckView::PubComp(pubcomp)).released(),
            ),
            ..before
        });
        match publish {
            None => {
                flags.disconnect = true;
                flags.stopped = true;
            },
            Some(publish) => {
                proof {
                    assert(released.connections.has(id));
                }
                let result = append_to_commitlog(
                    id,
                    publish,
                    None,
                    &mut self.datalog,
                    &mut self.notifications,
                    &self.connections,
                    now,
                );
                proof {
                    assert(self@ =~= released.published(id, publish, None, now));
                    released.lemma_published(id, publish, None, now);
                }
                match result {
                    Ok(_offset) => {
                        flags.new_data = true;
                    },
                    Err(_error) => {
                        self.router_meters.failed_publishes =
                        self.router_meters.failed_publishes.wrapping_add(1);
                        flags.disconnect = true;
                        flags.stopped = true;
                        assert(self@ =~= released.published(id, publish, None, now).with_failure());
                    },
                }
            },
        }
    }

    fn on_packet(
        &mut self,
        id: ConnectionId,
        client_id: &String,
        packet: Packet,
        now: Instant,
        flags: &mut Flags,
    )
        requires
            old(self).ok(),
            turn_at(old(self)@, *old(flags)).ok(id),
            !old(flags).stopped,
        ensures
            final(self).ok(),
            turn_at(final(self)@, *final(flags)).ok(id),
            turn_at(final(self)@, *final(flags)) == turn_at(old(self)@, *old(flags)).packet(
                id,
                client_id@,
                packet,
                now,
            ),
    {
        let ghost before = self@;
        match packet {
            Packet::Publish(publish, props) => {
                self.on_publish(id, publish, props, now, flags);
            },
            Packet::Subscribe(subscribe) => {
                self.on_subscribe(id, client_id, subscribe, flags);
            },
            Packet::Unsubscribe(unsubscribe) => {
                self.on_unsubscribe(id, client_id, unsubscribe, flags);
            },
            Packet::PubAck(puback) => {
                self.ack(id, puback.pkid, flags);
                if !flags.stopped {
                    self.reschedule(id, ScheduleReason::IncomingAck);
                }
            },
            Packet::PubRec(pubrec) => {
                self.ack(id, pubrec.pkid, flags);
                if !flags.stopped {
                    let ghost acked = self@;
                    let pubrel = PubRel { pkid: pubrec.pkid, reason: PubRelReason::Success };
                    proof {
                        assert(acked.connections.has(id));
                        assert(acked.ackslog.has(id));
                        acked.lemma_with_ack(id, AckView::PubRel(pubrel));
                    }
                    self.ackslog.at_mut(id).pubrel(pubrel);
                    assert(self@ =~= acked.with_ack(id, AckView::PubRel(pubrel)));
                    self.reschedule(id, ScheduleReason::IncomingAck);
                }
            },
            Packet::PubRel(pubrel, None) => {
                self.on_pubrel(id, pubrel.pkid, now, flags);
            },
            Packet::PingReq => {
                proof {
                    assert(before.connections.has(id));
                    assert(before.ackslog.has(id));
                    before.lemma_with_ack(id, AckView::PingResp);
                }
                self.ackslog.at_mut(id).pingresp();
                flags.force_ack = true;
                assert(self@ =~= before.with_ack(id, AckView::PingResp));
            },
            Packet::Disconnect => {
                self.alert(Alert::event(client_id.clone(), AlertEvent::Disconnect));
                flags.new_data = true;
                flags.disconnect = true;
                flags.execute_will = false;
                flags.stopped = true;
            },
            _ => {},
        }
    }

    /// Handles what a connection sent, at a given time.
    pub fn handle_device_payload_at(&mut self, id: ConnectionId, moment: &Moment)
        requires
            old(self).wf(),
        ensures
            final(self).wf(),
            final(self)@ == old(self)@.payload_handled(id, *moment),
    {
        let ghost before = self@;
        if !self.ibufs.contains(id) {
            return;
        }
        proof {
            assert(before.connections.has(id));
            assert(before.live(id));
            before.lemma_with_incoming(
                id,
                IncomingState { buffer: Seq::empty(), ..before.ibufs.at(id) },
            );
        }
        let client_id = self.ibufs.at(id).client_id.clone();
        let mut packets = self.ibufs.at_mut(id).exchange(VecDeque::new());
        let mut flags = Flags {
            force_ack: false,
            new_data: false,
            disconnect: false,
            execute_will: true,
            stopped: false,
        };
        let ghost all = packets@;
        let ghost start = before.turn(id);
        let ghost mut done: int = 0;
        proof {
            assert(turn_at(self@, flags) =~= start);
            assert(all.take(0) =~= Seq::<Packet>::empty());
            assert(all.skip(0) =~= all);
        }
        while packets.len() > 0 && !flags.stopped
            invariant
                0 <= done <= all.len(),
                packets@ == all.skip(done),
                self.ok(),
                client_id@ == start.state.ibufs.at(id).client_id,
                turn_at(self@, flags).ok(id),
                turn_at(self@, flags) == start.packets(id, all.take(done), moment.now),
            decreases packets.len(),
        {
            assert(packets@.len() == all.len() - done);
            let packet = packets.pop_front().unwrap();
            proof {
                assert(packet == all[done]);
                assert(all.take(done + 1).drop_last() =~= all.take(done));
                assert(all.skip(done).skip(1) =~= all.skip(done + 1));
                done = done + 1;
            }
            self.on_packet(id, &client_id, packet, moment.now, &mut flags);
        }
        proof {
            if flags.stopped {
                start.lemma_stopped(id, all, moment.now, done);
            } else {
                assert(all.take(done) =~= all);
            }
        }
        self.finish(id, flags, moment);
    }

    /// Ends a turn of a connection.
    fn finish(&mut self, id: ConnectionId, flags: Flags, moment: &Moment)
        requires
            old(self).ok(),
            turn_at(old(self)@, flags).ok(id),
        ensures
            final(self).ok(),
            final(self)@.notifications.len() == 0,
            final(self)@ == turn_at(old(self)@, flags).finish(id, *moment),
    {
        if flags.force_ack {
            self.reschedule(id, ScheduleReason::FreshData);
        }
        if flags.new_data {
            let ghost acked = self@;
            proof {
                acked.lemma_settled();
            }
            settle(&mut self.scheduler, &mut self.notifications);
            assert(self@ =~= acked.settled());
        }
        if flags.disconnect {
            self.handle_disconnection_at(id, flags.execute_will, moment);
        }
    }
}

impl Router {
    /// Serves the connection whose turn it is, at a given time. Nothing comes
    /// back where no connection is ready.
    pub fn consume_at(&mut self, now: Instant) -> (served: Option<()>)
        requires
            old(self).wf(),
        ensures
            final(self).wf(),
            final(self)@ == old(self)@.consumed(now),
            served is Some == (old(self)@.scheduler.readyqueue.len() > 0),
    {
        let ghost before = self@;
        let ghost native = before.datalog.native;
        proof {
            if before.scheduler.readyqueue.len() > 0 {
                lemma_polled(native, before.scheduler);
                before.lemma_with_scheduler(before.scheduler.polled());
            }
        }
        let (id, requests) = match self.scheduler.poll() {
            Some(turn) => turn,
            None => {
                return None;
            },
        };
        let ghost polled = self@;
        assert(polled =~= RouterState { scheduler: before.scheduler.polled(), ..before });
        if !self.obufs.contains(id) {
            return Some(());
        }
        proof {
            assert(polled.connections.has(id));
            assert(polled.ackslog.has(id));
            polled.lemma_acked(id);
        }
        ack_device_data(self.ackslog.at_mut(id), self.obufs.at_mut(id));
        assert(self@ =~= polled.acked(id));
        self.serve_requests(id, requests, now);
        Some(())
    }

    /// Serves requests of a connection in turn.
    fn serve_requests(&mut self, id: ConnectionId, requests: VecDeque<DataRequest>, now: Instant)
        requires
            old(self).ok(),
            old(self)@.live(id),
            requests_ok(old(self)@.datalog.native, requests@),
        ensures
            final(self).ok(),
            final(self)@ == old(self)@.served(
                id,
                requests@,
                MAX_SCHEDULE_ITERATIONS as nat,
                now,
            ),
            final(self)@.notifications == old(self)@.notifications,
    {
        let ghost goal = self@.served(id, requests@, MAX_SCHEDULE_ITERATIONS as nat, now);
        let ghost notifications = self@.notifications;
        let mut queue = requests;
        let mut i: usize = 0;
        while i < MAX_SCHEDULE_ITERATIONS
            invariant
                i <= MAX_SCHEDULE_ITERATIONS,
                goal == old(self)@.served(id, requests@, MAX_SCHEDULE_ITERATIONS as nat, now),
                notifications == old(self)@.notifications,
                self.ok(),
                self@.live(id),
                self@.notifications == notifications,
                requests_ok(self@.datalog.native, queue@),
                goal == self@.served(
                    id,
                    queue@,
                    (MAX_SCHEDULE_ITERATIONS - i) as nat,
                    now,
                ),
            decreases MAX_SCHEDULE_ITERATIONS - i,
        {
            let ghost state = self@;
            let ghost native = state.datalog.native;
            let ghost all = queue@;
            let mut request = match queue.pop_front() {
                Some(request) => request,
                None => {
                    self.pause(id, PauseReason::Caughtup);
                    return;
                },
            };
            let ghost rest = queue@;
            proof {
                assert(request == all[0]);
                assert(request_ok(native, all[0]));
                assert(rest =~= all.subrange(1, all.len() as int));
                assert forall|k: int| 0 <= k < rest.len() implies request_ok(
                    native,
                    #[trigger] rest[k],
                ) by {
                    assert(rest[k] == all[k + 1]);
                }
                state.lemma_serve(id, request, now);
            }
            let ghost out = serve(request, state.datalog, state.obufs.at(id), state.alertlog, now);
            let status = forward_device_data(
                &mut request,
                &self.datalog,
                self.obufs.at_mut(id),
                &mut self.alertlog,
                now,
            );
            let ghost next = self@;
            assert(next =~= RouterState {
                obufs: state.obufs.set(id, out.outgoing),
                alertlog: out.alertlog,
                ..state
            });
            i = i + 1;
            match status {
                ConsumeStatus::BufferFull => {
                    queue.push_back(request);
                    self.pause(id, PauseReason::Busy);
                    self.track(id, queue);
                    return;
                },
                ConsumeStatus::InflightFull => {
                    queue.push_back(request);
                    self.pause(id, PauseReason::InflightFull);
                    self.track(id, queue);
                    return;
                },
                ConsumeStatus::FilterCaughtup => {
                    proof {
                        next.lemma_park(id, request);
                        lemma_extend_requests(
                            native,
                            next.datalog.park(id, request).native,
                            rest,
                        );
                    }
                    self.datalog.park(id, request);
                    assert(self@ =~= RouterState {
                        datalog: next.datalog.park(id, out.request),
                        ..next
                    });
                },
                ConsumeStatus::PartialRead => {
                    queue.push_back(request);
                },
            }
        }
        self.track(id, queue);
    }

    fn pause(&mut self, id: ConnectionId, reason: PauseReason)
        requires
            old(self).ok(),
        ensures
            final(self).ok(),
            final(self)@ == (RouterState {
                scheduler: old(self)@.scheduler.pause(id, reason),
                ..old(self)@
            }),
    {
        proof {
            lemma_pause(self@.datalog.native, self@.scheduler, id, reason);
            self@.lemma_with_scheduler(self@.scheduler.pause(id, reason));
        }
        self.scheduler.pause(id, reason);
    }

    fn track(&mut self, id: ConnectionId, requests: VecDeque<DataRequest>)
        requires
            old(self).ok(),
            requests_ok(old(self)@.datalog.native, requests@),
        ensures
            final(self).ok(),
            final(self)@ == (RouterState {
                scheduler: old(self)@.scheduler.trackv(id, requests@),
                ..old(self)@
            }),
    {
        proof {
            lemma_trackv(self@.datalog.native, self@.scheduler, id, requests@);
            self@.lemma_with_scheduler(self@.scheduler.trackv(id, requests@));
        }
        self.scheduler.trackv(id, requests);
    }
}

/// Reads on in the logs of the filters of a link.
fn read_link(alertlog: &AlertLog, link: &AlertLink, id: usize, sent: &mut Vec<(usize, Alert)>) -> (
    filters: Vec<(String, Offset)>)
    requires
        alertlog.wf(),
        forall|k: int| 0 <= k < link@.len() ==> alertlog@.has((#[trigger] link@[k]).0),
    ensures
        view_offsets(filters@) == read_on(alertlog@, link@),
        view_deliveries(final(sent)@) == view_deliveries(old(sent)@) + alerts_for(
            alertlog@,
            link@,
        ).map_values(|alert: AlertView| (id, alert)),
{
    let ghost before = view_deliveries(sent@);
    let ghost tag = |alert: AlertView| (id, alert);
    let mut filters: Vec<(String, Offset)> = Vec::new();
    let mut k: usize = 0;
    assert(link@.take(0) =~= Seq::<(Seq<char>, Offset)>::empty());
    assert(before + alerts_for(alertlog@, link@.take(0)).map_values(tag) =~= before);
    while k < link.filters.len()
        invariant
            k <= link.filters.len(),
            alertlog.wf(),
            tag == (|alert: AlertView| (id, alert)),
            forall|k: int| 0 <= k < link@.len() ==> alertlog@.has((#[trigger] link@[k]).0),
            view_offsets(filters@) == read_on(alertlog@, link@).take(k as int),
            view_deliveries(sent@) == before + alerts_for(
                alertlog@,
                link@.take(k as int),
            ).map_values(tag),
        decreases link.filters.len() - k,
    {
        let ghost entry = link@[k as int];
        assert(alertlog@.has(entry.0));
        let (alerts, next_offset) = alertlog.native_readv(
            &link.filters[k].0,
            link.filters[k].1,
            ALERT_READ_LEN,
        );
        let ghost read = alertlog@.log(entry.0).log.read(entry.1, ALERT_READ_LEN);
        let ghost earlier = view_deliveries(sent@);
        let ghost fresh = read.map_values(|e: (AlertView, Offset)| e.0).map_values(tag);
        let mut i: usize = 0;
        assert(earlier + fresh.take(0) =~= earlier);
        while i < alerts.len()
            invariant
                i <= alerts.len(),
                read == view_entries(alerts@),
                tag == (|alert: AlertView| (id, alert)),
                fresh == read.map_values(|e: (AlertView, Offset)| e.0).map_values(tag),
                view_deliveries(sent@) == earlier + fresh.take(i as int),
            decreases alerts.len() - i,
        {
            let ghost was = sent@;
            sent.push((id, alerts[i].0.copy()));
            proof {
                assert(fresh[i as int] == (id, alerts@[i as int].0@));
                assert(view_deliveries(sent@) =~= view_deliveries(was).push(fresh[i as int]));
                assert((earlier + fresh.take(i as int)).push(fresh[i as int]) =~= earlier
                    + fresh.take(i + 1));
            }
            i = i + 1;
        }
        let ghost offsets = filters@;
        filters.push((link.filters[k].0.clone(), next_offset));
        proof {
            assert(fresh.take(i as int) =~= fresh);
            assert(link@.take(k + 1).drop_last() =~= link@.take(k as int));
            let some = alerts_for(alertlog@, link@.take(k as int));
            let more = read.map_values(|e: (AlertView, Offset)| e.0);
            assert(alerts_for(alertlog@, link@.take(k + 1)) == some + more);
            assert((some + more).map_values(tag) =~= some.map_values(tag) + more.map_values(tag));
            assert(before + (some.map_values(tag) + more.map_values(tag)) =~= (before
                + some.map_values(tag)) + more.map_values(tag));
            assert(view_offsets(filters@) =~= view_offsets(offsets).push(
                read_on(alertlog@, link@)[k as int],
            ));
            assert(read_on(alertlog@, link@).take(k + 1) =~= read_on(alertlog@, link@).take(
                k as int,
            ).push(read_on(alertlog@, link@)[k as int]));
        }
        k = k + 1;
    }
    assert(link@.take(k as int) =~= link@);
    assert(read_on(alertlog@, link@).take(k as int) =~= read_on(alertlog@, link@));
    filters
}

impl Router {
    /// Takes in someone who wants to know the meters. The answer is for that
    /// one.
    pub fn handle_new_meter(&mut self) -> (reply: (usize, Vec<Meter>))
        requires
            old(self).wf(),
            old(self)@.meters.has_room(),
        ensures
            final(self).wf(),
            final(self)@ == (RouterState { meters: old(self)@.meters.insert(()), ..old(self)@ }),
            reply.0 == old(self)@.meters.next_key(),
            views(reply.1@) == seq![MeterView::Router(old(self)@.id, old(self)@.router_meters)],
    {
        let meter_id = self.meters.insert(());
        let reply = vec![Meter::Router(self.id, self.router_meters)];
        assert(views(reply@) =~= seq![MeterView::Router(self.id, self.router_meters)]);
        (meter_id, reply)
    }

    /// The place just behind the last alert of a filter.
    fn prepare_alert_filter(&mut self, filter: &String) -> (offset: Offset)
        requires
            old(self).ok(),
        ensures
            final(self).ok(),
            final(self)@ == (RouterState {
                alertlog: old(self)@.alertlog.ensure_log(filter@),
                ..old(self)@
            }),
            offset == old(self)@.alertlog.next_offset(filter@),
            final(self)@.alertlog.has(filter@),
            forall|other: Seq<char>|
                old(self)@.alertlog.has(other) ==> #[trigger] final(self)@.alertlog.has(other),
    {
        let (_idx, offset) = self.alertlog.next_native_offset(filter.as_str());
        proof {
            lemma_alert_filter(old(self)@.alertlog, filter@);
            old(self)@.lemma_with_alertlog(self@.alertlog);
        }
        offset
    }

    /// Takes in someone who wants to know of the alerts of some filters from now
    /// on. The answer is for that one.
    pub fn handle_new_alert(&mut self, filters: Vec<String>) -> (reply: (usize, Alert))
        requires
            old(self).wf(),
            old(self)@.alerts.has_room(),
        ensures
            final(self).wf(),
            final(self)@ == old(self)@.alert_linked(filters@),
            reply.0 == old(self)@.alerts.next_key(),
            reply.1@ == AlertView::Connect("AlertsLink"@),
    {
        let ghost before = self@;
        let mut filter_with_offsets: Vec<(String, Offset)> = Vec::new();
        let mut i: usize = 0;
        assert(filters@.take(0) =~= Seq::<String>::empty());
        assert(view_offsets(filter_with_offsets@) =~= Seq::<(Seq<char>, Offset)>::empty());
        while i < filters.len()
            invariant
                i <= filters.len(),
                self.ok(),
                self@ == (RouterState {
                    alertlog: opened(before.alertlog, filters@.take(i as int)).0,
                    ..before
                }),
                view_offsets(filter_with_offsets@) == opened(
                    before.alertlog,
                    filters@.take(i as int),
                ).1,
                forall|k: int|
                    0 <= k < filter_with_offsets@.len() ==> self@.alertlog.has(
                        (#[trigger] filter_with_offsets@[k]).0@,
                    ),
            decreases filters.len() - i,
        {
            proof {
                assert(filters@.take(i + 1).drop_last() =~= filters@.take(i as int));
            }
            let ghost was = filter_with_offsets@;
            let offset = self.prepare_alert_filter(&filters[i]);
            filter_with_offsets.push((filters[i].clone(), offset));
            assert(view_offsets(filter_with_offsets@) =~= view_offsets(was).push(
                (filters@[i as int]@, offset),
            ));
            i = i + 1;
        }
        assert(filters@.take(i as int) =~= filters@);
        let link = AlertLink { filters: filter_with_offsets };
        proof {
            assert forall|k: int| 0 <= k < link@.len() implies self@.alertlog.has(
                (#[trigger] link@[k]).0,
            ) by {
                assert(self@.alertlog.has(filter_with_offsets@[k].0@));
            }
            self@.lemma_alert_linked(link@);
        }
        let alert_id = self.alerts.insert(link);
        assert(self@ =~= before.alert_linked(filters@));
        (alert_id, Alert::event("AlertsLink".to_owned(), AlertEvent::Connect))
    }

    /// Hands out the alerts that have come in to all who want to know of them.
    pub fn send_all_alerts(&mut self) -> (sent: Vec<(usize, Alert)>)
        requires
            old(self).wf(),
        ensures
            final(self).wf(),
            final(self)@ == old(self)@.alerts_sent(),
            view_deliveries(sent@) == deliveries(old(self)@.alertlog, old(self)@.alerts.rows),
    {
        let ghost before = self@;
        let ghost rows = before.alerts.rows;
        let ghost goal = before.alerts_sent().alerts.rows;
        let mut sent: Vec<(usize, Alert)> = Vec::new();
        let mut id: usize = 0;
        let count = self.alerts.slots();
        assert(rows.take(0) =~= Seq::<Option<Seq<(Seq<char>, Offset)>>>::empty());
        assert(view_deliveries(sent@) =~= Seq::<(usize, AlertView)>::empty());
        while id < count
            invariant
                id <= count == rows.len(),
                self.ok(),
                rows == before.alerts.rows,
                goal == before.alerts_sent().alerts.rows,
                self@ == (RouterState { alerts: self@.alerts, ..before }),
                self@.alerts.vacant == before.alerts.vacant,
                self@.alerts.rows.len() == rows.len(),
                forall|j: int| 0 <= j < id ==> (#[trigger] self@.alerts.rows[j]) == goal[j],
                forall|j: int| id <= j < rows.len() ==> (#[trigger] self@.alerts.rows[j])
                    == rows[j],
                view_deliveries(sent@) == deliveries(before.alertlog, rows.take(id as int)),
            decreases count - id,
        {
            let ghost state = self@;
            assert(rows.take(id + 1).drop_last() =~= rows.take(id as int));
            assert(self@.alerts.rows[id as int] == rows[id as int]);
            if self.alerts.contains(id) {
                proof {
                    let link = state.alerts.at(id);
                    assert forall|k: int| 0 <= k < link.len() implies state.alertlog.has(
                        (#[trigger] link[k]).0,
                    ) by {
                        assert(state.alertlog.has(state.alerts.at(id)[k].0));
                    }
                    let on = read_on(state.alertlog, link);
                    assert forall|k: int| 0 <= k < on.len() implies state.alertlog.has(
                        (#[trigger] on[k]).0,
                    ) by {
                        assert(state.alertlog.has(state.alerts.at(id)[k].0));
                    }
                    state.lemma_with_link(id, on);
                }
                let filters = read_link(&self.alertlog, self.alerts.at(id), id, &mut sent);
                self.alerts.at_mut(id).filters = filters;
                assert(self@ =~= RouterState {
                    alerts: state.alerts.set(id, read_on(state.alertlog, state.alerts.at(id))),
                    ..state
                });
            }
            id = id + 1;
        }
        assert(rows.take(id as int) =~= rows);
        assert(self@.alerts.rows =~= goal);
        assert(self@ =~= before.alerts_sent());
        sent
    }
}

impl Router {
    /// The meters that someone wants to know.
    pub fn handle_get_meter(&self, meter_id: usize, meter: GetMeter) -> (reply: (
        usize,
        Vec<Meter>,
    ))
        requires
            self.wf(),
            self@.meters.has(meter_id),
        ensures
            reply.0 == meter_id,
            self@.meters_answer(meter, views(reply.1@)),
    {
        let ghost state = self@;
        let meters = match meter {
            GetMeter::Router => {
                let meters = vec![Meter::Router(self.id, self.router_meters)];
                assert(views(meters@) =~= seq![
                    MeterView::Router(state.id, state.router_meters),
                ]);
                meters
            },
            GetMeter::Connection(Some(client_id)) => {
                match self.connection_map.get(&client_id) {
                    Some(id) => {
                        let id = *id;
                        proof {
                            assert(state.connection_map.contains_key(client_id@));
                            assert(state.obufs.has(id));
                            assert(state.connections.has(id));
                            assert(state.ibufs.has(id));
                        }
                        let meters = vec![self.connection_meter(id)];
                        assert(views(meters@) =~= seq![state.connection_meter(id)]);
                        meters
                    },
                    None => {
                        let meters = vec![Meter::Connection("".to_owned(), None, None)];
                        proof {
                            reveal_strlit("");
                            assert(""@ =~= Seq::<char>::empty());
                            assert(views(meters@) =~= seq![
                                MeterView::Connection(Seq::empty(), None, None),
                            ]);
                        }
                        meters
                    },
                }
            },
            GetMeter::Connection(None) => self.all_connection_meters(),
            GetMeter::Subscription(Some(filter)) => {
                let meter = self.datalog.meter(&filter);
                let meters = vec![Meter::Subscription(filter, meter)];
                assert(views(meters@) =~= seq![state.subscription_meter(filter@)]);
                meters
            },
            GetMeter::Subscription(None) => self.all_subscription_meters(),
        };
        (meter_id, meters)
    }

    fn connection_meter(&self, id: ConnectionId) -> (meter: Meter)
        requires
            self@.ibufs.has(id),
            self@.obufs.has(id),
        ensures
            meter@ == self@.connection_meter(id),
    {
        let incoming = self.ibufs.at(id);
        let outgoing = self.obufs.at(id);
        Meter::Connection(
            outgoing.client_id.clone(),
            Some(incoming.meter.copy()),
            Some(outgoing.meter),
        )
    }

    fn all_connection_meters(&self) -> (meters: Vec<Meter>)
        requires
            self.ok(),
        ensures
            views(meters@) == self@.connection_meters(self@.obufs.rows.len()),
    {
        broadcast use group_views;

        let ghost state = self@;
        let mut meters: Vec<Meter> = Vec::new();
        let mut id: usize = 0;
        let count = self.obufs.slots();
        while id < count
            invariant
                id <= count == state.obufs.rows.len(),
                self.ok(),
                state == self@,
                views(meters@) == state.connection_meters(id as nat),
            decreases count - id,
        {
            if self.obufs.contains(id) {
                proof {
                    assert(state.connections.has(id));
                    assert(state.ibufs.has(id));
                }
                meters.push(self.connection_meter(id));
            }
            id = id + 1;
        }
        meters
    }

    fn all_subscription_meters(&self) -> (meters: Vec<Meter>)
        requires
            self.ok(),
        ensures
            self@.meters_answer(GetMeter::Subscription(None), views(meters@)),
    {
        let ghost state = self@;
        let ghost order = self.subscription_map.order();
        let ghost goal = order.map_values(|filter: Seq<char>| state.subscription_meter(filter));
        let mut meters: Vec<Meter> = Vec::new();
        let mut i: usize = 0;
        while i < self.subscription_map.len()
            invariant
                i <= order.len(),
                self.ok(),
                state == self@,
                order == self.subscription_map.order(),
                goal == order.map_values(
                    |filter: Seq<char>| state.subscription_meter(filter),
                ),
                views(meters@) == goal.take(i as int),
            decreases order.len() - i,
        {
            let ghost was = meters@;
            let filter = self.subscription_map.name_at(i).clone();
            let meter = self.datalog.meter(&filter);
            meters.push(Meter::Subscription(filter, meter));
            assert(views(meters@) =~= views(was).push(goal[i as int]));
            i = i + 1;
            assert(goal.take(i as int) =~= goal.take(i - 1).push(goal[i - 1]));
        }
        proof {
            self.subscription_map.lemma_order();
            assert(lists_keys(order, state.subscription_map.dom()));
            assert(goal.take(i as int) =~= goal);
        }
        meters
    }

    /// The clients among the connections that are in a set.
    fn clients_in(&self, ids: &IdSet) -> (clients: Vec<String>)
        requires
            self.ok(),
            forall|id: ConnectionId| #[trigger] ids@.contains(id) ==> self@.obufs.has(id),
        ensures
            views(clients@) == self@.clients_in(ids@, self@.obufs.rows.len()),
    {
        broadcast use group_views;

        let ghost state = self@;
        let mut clients: Vec<String> = Vec::new();
        let mut id: usize = 0;
        let count = self.obufs.slots();
        while id < count
            invariant
                id <= count == state.obufs.rows.len(),
                state == self@,
                forall|id: ConnectionId| #[trigger] ids@.contains(id) ==> state.obufs.has(id),
                views(clients@) == state.clients_in(ids@, id as nat),
            decreases count - id,
        {
            if ids.contains(id) {
                clients.push(self.obufs.at(id).client_id.clone());
            }
            id = id + 1;
        }
        clients
    }

    fn subscribers(&self) -> (rows: Vec<(String, Vec<String>)>)
        requires
            self.ok(),
        ensures
            exists|order: Seq<Seq<char>>| #[trigger]
                lists_keys(order, self@.subscription_map.dom()) && rows@.len() == order.len()
                    && forall|i: int|
                    0 <= i < order.len() ==> self@.subscribers_answer(
                        #[trigger] order[i],
                        rows@[i],
                    ),
    {
        let ghost state = self@;
        let ghost order = self.subscription_map.order();
        proof {
            self.subscription_map.lemma_order();
        }
        let mut rows: Vec<(String, Vec<String>)> = Vec::new();
        let mut i: usize = 0;
        while i < self.subscription_map.len()
            invariant
                i <= order.len(),
                self.ok(),
                state == self@,
                order == self.subscription_map.order(),
                rows@.len() == i,
                forall|j: int|
                    0 <= j < i ==> state.subscribers_answer(#[trigger] order[j], rows@[j]),
            decreases order.len() - i,
        {
            let filter = self.subscription_map.name_at(i);
            let ids = self.subscription_map.value_at(i);
            proof {
                assert forall|id: ConnectionId| #[trigger] ids@.contains(
                    id,
                ) implies state.obufs.has(id) by {
                    assert(lists(state.subscription_map, filter@, id));
                    assert(state.connections.has(id));
                }
            }
            rows.push((filter.clone(), self.clients_in(ids)));
            i = i + 1;
        }
        assert(lists_keys(order, state.subscription_map.dom()));
        rows
    }

    fn waiters(&self, filter: &String) -> (rows: Option<Vec<(String, DataRequest)>>)
        requires
            self.ok(),
        ensures
            match (self@.datalog.waiters(filter@), rows) {
                (Some(waiters), Some(rows)) => {
                    &&& rows@.len() == waiters.len()
                    &&& forall|i: int|
                        0 <= i < waiters.len() ==> (#[trigger] rows@[i]).0@ == self@.obufs.at(
                            waiters[i].0,
                        ).client_id && rows@[i].1 == waiters[i].1
                },
                (None, None) => true,
                _ => false,
            },
    {
        let ghost state = self@;
        proof {
            lemma_find_log(state.datalog.native, filter@);
        }
        match self.datalog.waiters(filter) {
            None => None,
            Some(waiters) => {
                let mut rows: Vec<(String, DataRequest)> = Vec::new();
                let mut i: usize = 0;
                while i < waiters.len()
                    invariant
                        i <= waiters.len(),
                        state == self@,
                        waiters_ok(state.datalog.native, state.obufs, waiters@),
                        rows@.len() == i,
                        forall|j: int|
                            0 <= j < i ==> (#[trigger] rows@[j]).0@ == state.obufs.at(
                                waiters@[j].0,
                            ).client_id && rows@[j].1 == waiters@[j].1,
                    decreases waiters.len() - i,
                {
                    assert(state.obufs.has(waiters@[i as int].0));
                    let client_id = self.obufs.at(waiters[i].0).client_id.clone();
                    rows.push((client_id, waiters[i].1.clone()));
                    i = i + 1;
                }
                Some(rows)
            },
        }
    }

    /// What is to be reported at a given time.
    pub fn retrieve_metrics_at(&mut self, metrics: MetricsRequest, now: Instant) -> (reply:
        MetricsReply)
        requires
            old(self).wf(),
        ensures
            final(self).wf(),
            final(self)@ == old(self)@.reported(metrics, now),
            old(self)@.metrics_answer(metrics, now, reply),
    {
        let ghost before = self@;
        match metrics {
            MetricsRequest::Config => MetricsReply::Config(self.config),
            MetricsRequest::Router => MetricsReply::Router(self.router_meters),
            MetricsRequest::Connection(client_id) => {
                let found = match self.connection_map.get(&client_id) {
                    Some(id) => Some(*id),
                    None => None,
                };
                match found {
                    Some(id) => {
                        proof {
                            assert(before.connection_map.contains_key(client_id@));
                            assert(before.obufs.has(id));
                            assert(before.connections.has(id));
                            assert(before.scheduler.trackers.has(id));
                        }
                        let events = self.connections.at(id).events.copy();
                        let tracker = self.scheduler.trackers.at(id).copy();
                        MetricsReply::Connection(Some((events, tracker)))
                    },
                    None => {
                        let saved = self.graveyard.retrieve_at(client_id.as_str(), now);
                        proof {
                            before.lemma_with_graveyard(self@.graveyard);
                        }
                        match saved {
                            Some(saved) => MetricsReply::Connection(
                                Some((saved.metrics, saved.tracker)),
                            ),
                            None => MetricsReply::Connection(None),
                        }
                    },
                }
            },
            MetricsRequest::Subscriptions => MetricsReply::Subscriptions(self.subscribers()),
            MetricsRequest::Subscription(filter) => MetricsReply::Subscription(
                self.datalog.meter(&filter),
            ),
            MetricsRequest::Waiters(filter) => MetricsReply::Waiters(self.waiters(&filter)),
            MetricsRequest::ReadyQueue => {
                let mut queue: VecDeque<ConnectionId> = VecDeque::new();
                let mut i: usize = 0;
                while i < self.scheduler.readyqueue.len()
                    invariant
                        i <= self.scheduler.readyqueue.len(),
                        *self == *old(self),
                        queue@ == self.scheduler.readyqueue@.take(i as int),
                    decreases self.scheduler.readyqueue.len() - i,
                {
                    queue.push_back(self.scheduler.readyqueue[i]);
                    i = i + 1;
                    assert(queue@ =~= self.scheduler.readyqueue@.take(i as int));
                }
                assert(queue@ =~= self.scheduler.readyqueue@);
                MetricsReply::ReadyQueue(queue)
            },
        }
    }
}

impl Router {
    /// Whether an event can be handled.
    pub fn accepts(&self, id: ConnectionId, event: &Event) -> (accepted: bool)
        requires
            self.wf(),
        ensures
            accepted == self@.accepts(id, *event),
    {
        match event {
            Event::NewMeter => self.meters.has_room(),
            Event::NewAlert(_) => self.alerts.has_room(),
            Event::GetMeter(_) => self.meters.contains(id),
            Event::Shadow(_) => self.obufs.contains(id),
            _ => true,
        }
    }

    /// Answers what the last publish of a filter is.
    fn shadow(&mut self, id: ConnectionId, request: ShadowRequest)
        requires
            old(self).ok(),
            old(self)@.live(id),
        ensures
            final(self).ok(),
            final(self)@ == old(self)@.shadowed(id, request.filter@),
    {
        proof {
            self@.lemma_with_outgoing(
                id,
                with_shadow(self@.datalog, self@.obufs.at(id), request.filter@),
            );
        }
        retrieve_shadow(&self.datalog, self.obufs.at_mut(id), request);
        assert(self@ =~= old(self)@.shadowed(id, request.filter@));
    }

    /// Handles an event at a given time.
    pub fn events_at(&mut self, id: ConnectionId, data: Event, moment: &Moment) -> (reply: Reply)
        requires
            old(self).wf(),
            old(self)@.accepts(id, data),
        ensures
            final(self).wf(),
            final(self)@ == old(self)@.after_event(id, data, *moment),
            old(self)@.event_answer(id, data, moment.now, reply),
    {
        match data {
            Event::Connect { connection, incoming, outgoing } => {
                self.handle_new_connection_at(connection, incoming, outgoing, moment);
                Reply::Nothing
            },
            Event::NewMeter => {
                let (meter_id, meters) = self.handle_new_meter();
                Reply::Meters(meter_id, meters)
            },
            Event::GetMeter(meter) => {
                let (meter_id, meters) = self.handle_get_meter(id, meter);
                Reply::Meters(meter_id, meters)
            },
            Event::NewAlert(filters) => {
                let (alert_id, alert) = self.handle_new_alert(filters);
                Reply::Alert(alert_id, alert)
            },
            Event::DeviceData => {
                self.handle_device_payload_at(id, moment);
                Reply::Nothing
            },
            Event::Disconnect { execute_will } => {
                self.handle_disconnection_at(id, execute_will, moment);
                Reply::Nothing
            },
            Event::Ready => {
                self.reschedule(id, ScheduleReason::Ready);
                Reply::Nothing
            },
            Event::Shadow(request) => {
                self.shadow(id, request);
                Reply::Nothing
            },
            Event::Metrics(metrics) => Reply::Metrics(
                self.retrieve_metrics_at(metrics, moment.now),
            ),
        }
    }

    /// Begins a round at a given time: a connection that is ready has its turn;
    /// where there is none, the next event has to be waited for.
    pub fn begin_round_at(&mut self, now: Instant) -> (progress: Progress)
        requires
            old(self).wf(),
        ensures
            final(self).wf(),
            final(self)@ == old(self)@.consumed(now),
            progress == if old(self)@.scheduler.readyqueue.len() == 0 {
                Progress::Waiting
            } else {
                Progress::Polling(MAX_POLLS)
            },
    {
        if self.consume_at(now).is_none() {
            Progress::Waiting
        } else {
            Progress::Polling(MAX_POLLS)
        }
    }

    /// Takes in what links have for the router in the middle of a round.
    pub fn receive_at(&mut self, progress: Progress, received: Received, moment: &Moment) -> (
        result: Result<(Progress, Reply), RouterError>)
        requires
            old(self).wf(),
            !(progress is Done),
            received matches Received::Event(id, event) ==> old(self)@.accepts(id, event),
        ensures
            final(self).wf(),
            match received {
                Received::Event(id, event) => {
                    &&& final(self)@ == old(self)@.after_event(id, event, *moment)
                    &&& result matches Ok((next, reply))
                    &&& next == after_receipt(progress)
                    &&& old(self)@.event_answer(id, event, moment.now, reply)
                },
                Received::Empty => {
                    &&& final(self)@ == old(self)@
                    &&& result matches Ok((next, reply))
                    &&& next == if progress is Waiting {
                        Progress::Waiting
                    } else {
                        Progress::Done
                    }
                    &&& reply is Nothing
                },
                Received::Disconnected => {
                    &&& final(self)@ == old(self)@
                    &&& result matches Err(error)
                    &&& error@ == if progress is Waiting {
                        RouterErrorView::Recv
                    } else {
                        RouterErrorView::Disconnected
                    }
                },
            },
    {
        match received {
            Received::Event(id, event) => {
                let reply = self.events_at(id, event, moment);
                Ok((progress.advance(), reply))
            },
            Received::Empty => match progress {
                Progress::Waiting => Ok((Progress::Waiting, Reply::Nothing)),
                _ => Ok((Progress::Done, Reply::Nothing)),
            },
            Received::Disconnected => match progress {
                Progress::Waiting => Err(RouterError::Recv),
                _ => Err(RouterError::Disconnected),
            },
        }
    }

    /// Finishes a round at a given time: connections that are ready have their
    /// turn, and alerts are handed out.
    pub fn finish_round_at(&mut self, now: Instant) -> (sent: Vec<(usize, Alert)>)
        requires
            old(self).wf(),
        ensures
            final(self).wf(),
            final(self)@ == old(self)@.consumed_times(MAX_TURNS as nat, now).alerts_sent(),
            view_deliveries(sent@) == deliveries(
                old(self)@.consumed_times(MAX_TURNS as nat, now).alertlog,
                old(self)@.consumed_times(MAX_TURNS as nat, now).alerts.rows,
            ),
    {
        let mut i: usize = 0;
        while i < MAX_TURNS
            invariant
                i <= MAX_TURNS,
                self.wf(),
                self@ == old(self)@.consumed_times(i as nat, now),
            decreases MAX_TURNS - i,
        {
            let _served = self.consume_at(now);
            i = i + 1;
        }
        self.send_all_alerts()
    }
}

impl Router {
    /// Takes in a connection. An id with a character that means something in
    /// filters is not taken in; an older connection of the same client ends; and
    /// without room the connection is turned away.
    pub fn handle_new_connection(
        &mut self,
        connection: Connection,
        incoming: Incoming,
        outgoing: Outgoing,
    )
        requires
            old(self).wf(),
        ensures
            final(self).wf(),
            exists|moment: Moment|
                moment.is_reading() && final(self)@ == #[trigger] old(self)@.connected(
                    connection@,
                    incoming@,
                    outgoing@,
                    moment,
                ),
    {
        let moment = Moment::now();
        self.handle_new_connection_at(connection, incoming, outgoing, &moment);
    }

    /// Ends a connection.
    pub fn handle_disconnection(&mut self, id: ConnectionId, execute_last_will: bool)
        requires
            old(self).wf(),
        ensures
            final(self).wf(),
            exists|moment: Moment|
                moment.is_reading() && final(self)@ == #[trigger] old(self)@.disconnected(
                    id,
                    execute_last_will,
                    moment,
                ),
    {
        let moment = Moment::now();
        self.handle_disconnection_at(id, execute_last_will, &moment);
    }

    /// Handles what a connection sent.
    pub fn handle_device_payload(&mut self, id: ConnectionId)
        requires
            old(self).wf(),
        ensures
            final(self).wf(),
            exists|moment: Moment|
                moment.is_reading() && final(self)@ == #[trigger] old(self)@.payload_handled(
                    id,
                    moment,
                ),
    {
        let moment = Moment::now();
        self.handle_device_payload_at(id, &moment);
    }

    /// Publishes the last will of a connection.
    pub fn handle_last_will(&mut self, id: ConnectionId)
        requires
            old(self).wf(),
            old(self)@.live(id),
        ensures
            final(self).wf(),
            exists|now: Instant| final(self)@ == #[trigger] old(self)@.last_will(id, now),
    {
        let now = instant_now();
        self.handle_last_will_at(id, now);
    }

    /// Serves the connection whose turn it is.
    pub fn consume(&mut self) -> (served: Option<()>)
        requires
            old(self).wf(),
        ensures
            final(self).wf(),
            exists|now: Instant| final(self)@ == #[trigger] old(self)@.consumed(now),
            served is Some == (old(self)@.scheduler.readyqueue.len() > 0),
    {
        let now = instant_now();
        self.consume_at(now)
    }

    /// What is to be reported.
    pub fn retrieve_metrics(&mut self, metrics: MetricsRequest) -> (reply: MetricsReply)
        requires
            old(self).wf(),
        ensures
            final(self).wf(),
            exists|now: Instant|
                final(self)@ == #[trigger] old(self)@.reported(metrics, now)
                    && old(self)@.metrics_answer(metrics, now, reply),
    {
        let now = instant_now();
        self.retrieve_metrics_at(metrics, now)
    }

    /// Handles an event.
    pub fn events(&mut self, id: ConnectionId, data: Event) -> (reply: Reply)
        requires
            old(self).wf(),
            old(self)@.accepts(id, data),
        ensures
            final(self).wf(),
            exists|moment: Moment|
                moment.is_reading() && final(self)@ == #[trigger] old(self)@.after_event(
                    id,
                    data,
                    moment,
                ) && old(self)@.event_answer(id, data, moment.now, reply),
    {
        let moment = Moment::now();
        self.events_at(id, data, &moment)
    }
}

impl Router {
    /// The connection of a client.
    pub fn connection_id(&self, client_id: &String) -> (id: Option<ConnectionId>)
        requires
            self.wf(),
        ensures
            match id {
                Some(id) => self@.connection_map.contains_key(client_id@)
                    && self@.connection_map[client_id@] == id,
                None => !self@.connection_map.contains_key(client_id@),
            },
    {
        match self.connection_map.get(client_id) {
            Some(id) => Some(*id),
            None => None,
        }
    }

    /// Whether there is a connection of this number.
    pub fn is_connected(&self, id: ConnectionId) -> (live: bool)
        ensures
            live == self@.live(id),
    {
        self.obufs.contains(id)
    }

    /// Puts a packet into the inbox of a connection. Says whether there is such
    /// a connection.
    pub fn deposit(&mut self, id: ConnectionId, packet: Packet) -> (live: bool)
        requires
            old(self).wf(),
        ensures
            final(self).wf(),
            live == old(self)@.live(id),
            final(self)@ == if live {
                old(self)@.deposited(id, packet)
            } else {
                old(self)@
            },
    {
        let ghost before = self@;
        if !self.obufs.contains(id) {
            return false;
        }
        proof {
            assert(before.connections.has(id));
            assert(before.ibufs.has(id));
            let incoming = before.ibufs.at(id);
            before.lemma_with_incoming(
                id,
                IncomingState { buffer: incoming.buffer.push(packet), ..incoming },
            );
        }
        self.ibufs.at_mut(id).buffer.push_back(packet);
        assert(self@ =~= before.deposited(id, packet));
        true
    }

    /// Whether a link is to be told that there is something for it.
    pub fn woken(&self, id: ConnectionId) -> (woken: bool)
        requires
            self.wf(),
        ensures
            woken == (self@.live(id) && self@.obufs.at(id).woken),
    {
        self.obufs.contains(id) && self.obufs.at(id).woken
    }

    /// Takes out what is in the outbox of a connection, where there is one.
    pub fn collect(&mut self, id: ConnectionId) -> (notifications: Option<VecDeque<Notification>>)
        requires
            old(self).wf(),
        ensures
            final(self).wf(),
            notifications is Some == old(self)@.live(id),
            match notifications {
                Some(notifications) => {
                    &&& views(notifications@) == old(self)@.obufs.at(id).buffer
                    &&& final(self)@ == old(self)@.collected(id)
                },
                None => final(self)@ == old(self)@,
            },
    {
        let ghost before = self@;
        if !self.obufs.contains(id) {
            return None;
        }
        proof {
            let outgoing = before.obufs.at(id);
            before.lemma_with_outgoing(
                id,
                OutgoingState { buffer: Seq::empty(), woken: false, ..outgoing },
            );
        }
        let notifications = self.obufs.at_mut(id).collect();
        assert(self@ =~= before.collected(id));
        Some(notifications)
    }
}

} // verus!
