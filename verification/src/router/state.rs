//! What a router knows, and how each event changes it.
use super::alertlog::{AlertLogState, AlertView};
use super::commit::append_publish;
use super::datalog::{parked, DataLogState};
use super::delivery::{serve, with_acks, with_shadow, ConsumeStatus};
use super::graveyard::{buried, retrieved, unexpired, SavedStateView};
use super::iobufs::{first_unacked, IncomingState, OutgoingState};
use super::logs::{log_index, AckLogState};
use super::messages::{
    record_event, AckView, ConnectionId, ConnectionState, DataRequest, RouterConfig, RouterMeter,
    MAX_SCHEDULE_ITERATIONS,
};
use super::scheduler::{PauseReason, ScheduleReason, SchedulerState, TrackerState};
use super::validate::{clientid_valid, subscription_verdict};
use crate::arena::Slots;
use crate::clock::Moment;
use crate::protocol::{
    ConnAck, ConnectReturnCode, Filter, LastWill, Packet, PubAck, PubAckReason, PubComp,
    PubCompReason, PubRel, PubRelReason, Publish, PublishProperties, QoS, SubscribeReasonCode,
};
use crate::segments::log::Offset;
use std::time::Instant;
use vstd::prelude::*;

verus! {

#[verifier::ext_equal]
pub struct RouterState {
    pub id: usize,
    pub config: RouterConfig,
    /// The sessions of clients that went away, by client id.
    pub graveyard: Map<Seq<char>, SavedStateView>,
    /// Those who want to know the meters.
    pub meters: Slots<()>,
    /// Those who want to know of alerts: their filters, and how far they have
    /// read.
    pub alerts: Slots<Seq<(Seq<char>, Offset)>>,
    pub connections: Slots<ConnectionState>,
    /// The connection of each client.
    pub connection_map: Map<Seq<char>, ConnectionId>,
    /// The connections that subscribed to each filter.
    pub subscription_map: Map<Seq<char>, Set<ConnectionId>>,
    pub ibufs: Slots<IncomingState>,
    pub obufs: Slots<OutgoingState>,
    pub datalog: DataLogState,
    pub alertlog: AlertLogState,
    pub ackslog: Slots<AckLogState>,
    pub scheduler: SchedulerState,
    /// Requests that waited for something that has come in.
    pub notifications: Seq<(ConnectionId, DataRequest)>,
    pub router_meters: RouterMeter,
}

/// The requests go back to their connections, which are queued where nothing
/// else keeps them.
pub open spec fn notified(
    scheduler: SchedulerState,
    notifications: Seq<(ConnectionId, DataRequest)>,
) -> SchedulerState
    decreases notifications.len(),
{
    if notifications.len() == 0 {
        scheduler
    } else {
        let last = notifications.last();
        notified(scheduler, notifications.drop_last()).track(last.0, last.1).reschedule(
            last.0,
            ScheduleReason::FreshData,
        )
    }
}

/// A last will, as a publish.
pub open spec fn will_publish(will: LastWill) -> Publish {
    Publish {
        dup: false,
        qos: will.qos,
        retain: will.retain,
        topic: will.topic,
        pkid: 0,
        payload: will.message,
    }
}

/// A request that reads again what was sent and is not acked.
pub open spec fn rewound(
    request: DataRequest,
    inflight: Seq<(u16, usize, (u64, u64))>,
) -> DataRequest {
    match first_unacked(inflight, request.filter_idx) {
        Some(cursor) => DataRequest { cursor, ..request },
        None => request,
    }
}

pub open spec fn all_rewound(
    requests: Seq<DataRequest>,
    inflight: Seq<(u16, usize, (u64, u64))>,
) -> Seq<DataRequest> {
    Seq::new(requests.len(), |i: int| rewound(requests[i], inflight))
}

/// The subscriptions without a connection under some filters.
pub open spec fn unsubscribed(
    subscription_map: Map<Seq<char>, Set<ConnectionId>>,
    filters: Set<Seq<char>>,
    id: ConnectionId,
) -> Map<Seq<char>, Set<ConnectionId>> {
    Map::new(
        |filter: Seq<char>| subscription_map.contains_key(filter),
        |filter: Seq<char>|
            if filters.contains(filter) {
                subscription_map[filter].remove(id)
            } else {
                subscription_map[filter]
            },
    )
}

/// The lists of the filters after a connection was put in some of them.
pub open spec fn listed(
    subscription_map: Map<Seq<char>, Set<ConnectionId>>,
    filters: Set<Seq<char>>,
    id: ConnectionId,
) -> Map<Seq<char>, Set<ConnectionId>> {
    Map::new(
        |filter: Seq<char>| subscription_map.contains_key(filter) || filters.contains(filter),
        |filter: Seq<char>|
            {
                let subscribers = if subscription_map.contains_key(filter) {
                    subscription_map[filter]
                } else {
                    Set::empty()
                };
                if filters.contains(filter) {
                    subscribers.insert(id)
                } else {
                    subscribers
                }
            },
    )
}

/// Whether a connection is listed under a filter.
pub open spec fn lists(
    subscription_map: Map<Seq<char>, Set<ConnectionId>>,
    filter: Seq<char>,
    id: ConnectionId,
) -> bool {
    subscription_map.contains_key(filter) && subscription_map[filter].contains(id)
}

pub open spec fn bool_text(value: bool) -> Seq<char> {
    if value {
        "true"@
    } else {
        "false"@
    }
}

pub open spec fn connection_event(time: Seq<char>, clean: bool) -> Seq<char> {
    "connection at "@ + time + ", clean = "@ + bool_text(clean)
}

pub open spec fn disconnection_event(time: Seq<char>) -> Seq<char> {
    "disconnection at "@ + time
}

pub open spec fn reason_code(qos: QoS) -> SubscribeReasonCode {
    match qos {
        QoS::AtMostOnce => SubscribeReasonCode::QoS0,
        QoS::AtLeastOnce => SubscribeReasonCode::QoS1,
        QoS::ExactlyOnce => SubscribeReasonCode::QoS2,
    }
}

impl RouterState {
    pub open spec fn new(id: usize, config: RouterConfig) -> Self {
        RouterState {
            id,
            config,
            graveyard: Map::empty(),
            meters: Slots::empty(),
            alerts: Slots::empty(),
            connections: Slots::empty(),
            connection_map: Map::empty(),
            subscription_map: Map::empty(),
            ibufs: Slots::empty(),
            obufs: Slots::empty(),
            datalog: DataLogState::new(config),
            alertlog: AlertLogState::new(config),
            ackslog: Slots::empty(),
            scheduler: SchedulerState { trackers: Slots::empty(), readyqueue: Seq::empty() },
            notifications: Seq::empty(),
            router_meters: RouterMeter {
                router_id: id,
                total_connections: 0,
                total_subscriptions: 0,
                total_publishes: 0,
                failed_publishes: 0,
            },
        }
    }

    /// Whether there is a connection of this number.
    pub open spec fn live(self, id: ConnectionId) -> bool {
        self.obufs.has(id)
    }

    pub open spec fn with_ack(self, id: ConnectionId, ack: AckView) -> Self {
        RouterState { ackslog: self.ackslog.set(id, self.ackslog.at(id).commit(ack)), ..self }
    }

    pub open spec fn with_alert(self, alert: AlertView) -> Self {
        RouterState { alertlog: self.alertlog.append(alert), ..self }
    }

    pub open spec fn with_failure(self) -> Self {
        RouterState {
            router_meters: RouterMeter {
                failed_publishes: self.router_meters.failed_publishes.wrapping_add(1),
                ..self.router_meters
            },
            ..self
        }
    }

    pub open spec fn rescheduled(self, id: ConnectionId, reason: ScheduleReason) -> Self {
        RouterState { scheduler: self.scheduler.reschedule(id, reason), ..self }
    }

    /// All who waited for something that has come in are told.
    pub open spec fn settled(self) -> Self {
        RouterState {
            scheduler: notified(self.scheduler, self.notifications),
            notifications: Seq::empty(),
            ..self
        }
    }

    /// What becomes of a publish of a connection.
    pub open spec fn publish_outcome(
        self,
        id: ConnectionId,
        publish: Publish,
        props: Option<PublishProperties>,
        now: Instant,
    ) -> super::commit::Appended {
        append_publish(self.datalog, self.connections.at(id), publish, props, now)
    }

    /// The logs after a publish of a connection.
    pub open spec fn published(
        self,
        id: ConnectionId,
        publish: Publish,
        props: Option<PublishProperties>,
        now: Instant,
    ) -> Self {
        let appended = self.publish_outcome(id, publish, props, now);
        RouterState {
            datalog: appended.datalog,
            notifications: self.notifications + appended.woken,
            ..self
        }
    }

    /// The last will of a connection is taken from it and published.
    pub open spec fn last_will(self, id: ConnectionId, now: Instant) -> Self {
        let connection = self.connections.at(id);
        match connection.last_will {
            None => self,
            Some(will) => {
                let taken = RouterState {
                    connections: self.connections.set(
                        id,
                        ConnectionState { last_will: None, ..connection },
                    ),
                    ..self
                };
                let publish = will_publish(will);
                let published = taken.published(id, publish, None, now);
                if taken.publish_outcome(id, publish, None, now).outcome is Ok {
                    published.settled()
                } else {
                    published.with_failure()
                }
            },
        }
    }

    /// What is kept of a connection.
    pub open spec fn session(self, id: ConnectionId, time: Seq<char>) -> SavedStateView {
        let connection = self.connections.at(id);
        let outgoing = self.obufs.at(id);
        let tracker = self.scheduler.trackers.at(id);
        let events = record_event(connection.events, disconnection_event(time));
        if connection.clean {
            buried(TrackerState::new(outgoing.client_id), Set::empty(), events, None)
        } else {
            buried(
                TrackerState {
                    data_requests: all_rewound(
                        tracker.data_requests + parked(self.datalog.native, id),
                        outgoing.inflight,
                    ),
                    ..tracker
                },
                connection.subscriptions,
                events,
                None,
            )
        }
    }

    /// A connection is taken out of all tables, and its session is saved.
    pub open spec fn departed(self, id: ConnectionId, time: Seq<char>) -> Self {
        let session = self.session(id, time);
        RouterState {
            connections: self.connections.remove(id),
            ibufs: self.ibufs.remove(id),
            obufs: self.obufs.remove(id),
            ackslog: self.ackslog.remove(id),
            scheduler: self.scheduler.remove(id),
            connection_map: self.connection_map.remove(self.obufs.at(id).client_id),
            datalog: self.datalog.clean(id),
            subscription_map: unsubscribed(
                self.subscription_map,
                self.connections.at(id).subscriptions,
                id,
            ),
            graveyard: self.graveyard.insert(session.tracker.id, session),
            router_meters: RouterMeter {
                total_connections: (self.router_meters.total_connections - 1) as usize,
                ..self.router_meters
            },
            ..self
        }
    }

    /// A connection is about to end: there is an alert, and its last will is
    /// published where that is asked for.
    pub open spec fn leaving(self, id: ConnectionId, execute_will: bool, now: Instant) -> Self {
        let alerted = self.with_alert(AlertView::Disconnect(self.obufs.at(id).client_id));
        if execute_will {
            alerted.last_will(id, now)
        } else {
            alerted
        }
    }

    /// A connection ends. One that is gone already stays gone.
    pub open spec fn disconnected(
        self,
        id: ConnectionId,
        execute_will: bool,
        moment: Moment,
    ) -> Self {
        if !self.live(id) {
            self
        } else {
            self.leaving(id, execute_will, moment.now).departed(id, moment.time@)
        }
    }

    /// A connection begins. Its client gets back what was saved of the last
    /// session: all of it, or the history alone where a clean session is asked
    /// for. It is listed under every filter that it is subscribed to.
    pub open spec fn admitted(
        self,
        connection: ConnectionState,
        incoming: IncomingState,
        outgoing: OutgoingState,
        moment: Moment,
    ) -> Self {
        let client_id = outgoing.client_id;
        let found = retrieved(self.graveyard, client_id, moment.now);
        let saved = match found {
            Some(saved) => saved,
            None => SavedStateView::new(client_id),
        };
        let events = record_event(saved.metrics, connection_event(moment.time@, connection.clean));
        let id = self.connections.next_key();
        let subscriptions = if connection.clean {
            connection.subscriptions
        } else {
            saved.subscriptions
        };
        let tracker = if connection.clean {
            TrackerState::new(client_id)
        } else {
            saved.tracker
        };
        let ack = ConnAck {
            session_present: !connection.clean && found is Some,
            code: ConnectReturnCode::Success,
        };
        RouterState {
            graveyard: unexpired(self.graveyard, moment.now).remove(client_id),
            connections: self.connections.insert(
                ConnectionState { subscriptions, events, ..connection },
            ),
            subscription_map: listed(self.subscription_map, subscriptions, id),
            ibufs: self.ibufs.insert(incoming),
            obufs: self.obufs.insert(outgoing),
            ackslog: self.ackslog.insert(AckLogState::empty().commit(AckView::ConnAck(id, ack))),
            scheduler: self.scheduler.add(tracker).reschedule(id, ScheduleReason::Init),
            connection_map: self.connection_map.insert(client_id, id),
            alertlog: self.alertlog.append(AlertView::Connect(client_id)),
            router_meters: RouterMeter {
                total_connections: (self.router_meters.total_connections + 1) as usize,
                ..self.router_meters
            },
            ..self
        }
    }

    /// The router without an older connection of a client.
    pub open spec fn without_duplicate(self, client_id: Seq<char>, moment: Moment) -> Self {
        if self.connection_map.contains_key(client_id) {
            self.disconnected(self.connection_map[client_id], true, moment)
        } else {
            self
        }
    }

    /// A client wants to connect. It takes the place of an older connection of
    /// its own; where there is no room it is turned away.
    pub open spec fn connected(
        self,
        connection: ConnectionState,
        incoming: IncomingState,
        outgoing: OutgoingState,
        moment: Moment,
    ) -> Self {
        if !clientid_valid(outgoing.client_id) {
            self
        } else {
            let cleared = self.without_duplicate(outgoing.client_id, moment);
            if cleared.connections.count() >= cleared.config.max_connections {
                cleared
            } else {
                cleared.admitted(connection, incoming, outgoing, moment)
            }
        }
    }

    /// A connection gets what comes in for a filter from now on.
    pub open spec fn prepared(
        self,
        id: ConnectionId,
        cursor: Offset,
        filter_idx: usize,
        filter: String,
        qos: u8,
    ) -> Self {
        let connection = self.connections.at(id);
        let incoming = self.ibufs.at(id);
        let request = DataRequest {
            filter,
            filter_idx,
            qos,
            cursor,
            read_count: 0,
            max_count: 100,
        };
        let subscribers = if self.subscription_map.contains_key(filter@) {
            self.subscription_map[filter@]
        } else {
            Set::empty()
        };
        RouterState {
            subscription_map: self.subscription_map.insert(filter@, subscribers.insert(id)),
            connections: self.connections.set(
                id,
                ConnectionState {
                    subscriptions: connection.subscriptions.insert(filter@),
                    ..connection
                },
            ),
            scheduler: if connection.subscriptions.contains(filter@) {
                self.scheduler
            } else {
                self.scheduler.track(id, request).reschedule(id, ScheduleReason::NewFilter)
            },
            ibufs: self.ibufs.set(
                id,
                IncomingState {
                    meter: super::iobufs::IncomingMeterState {
                        subscriptions: incoming.meter.subscriptions.insert(filter@),
                        ..incoming.meter
                    },
                    ..incoming
                },
            ),
            ..self
        }
    }

    /// A connection subscribes to a filter. What was retained for the filter
    /// goes to its log.
    pub open spec fn subscribed(self, id: ConnectionId, filter: Filter) -> Self {
        let opened = RouterState { datalog: self.datalog.ensure_log(filter.path@), ..self };
        let prepared = opened.prepared(
            id,
            self.datalog.next_offset(filter.path@),
            log_index(self.datalog.native, filter.path@),
            filter.path,
            filter.qos.spec_level(),
        );
        let items = prepared.datalog.replay_items(filter.path@);
        RouterState {
            datalog: prepared.datalog.append_items(items),
            notifications: prepared.notifications + prepared.datalog.woken(items),
            ..prepared
        }
    }

    /// A connection asks for a filter no more. What it is to be told of already
    /// it will still be told of.
    pub open spec fn unasked(self, id: ConnectionId, filter: Seq<char>) -> Self {
        RouterState {
            scheduler: self.scheduler.untrack(id, filter),
            datalog: self.datalog.remove_waiter(id, filter),
            ..self
        }
    }

    /// A connection no longer gets what comes in for a filter.
    pub open spec fn unsubscribed(self, id: ConnectionId, filter: Seq<char>, pkid: u16) -> Self {
        if !lists(self.subscription_map, filter, id) {
            self
        } else {
            let connection = self.connections.at(id);
            let incoming = self.ibufs.at(id);
            let removed = RouterState {
                subscription_map: self.subscription_map.insert(
                    filter,
                    self.subscription_map[filter].remove(id),
                ),
                ibufs: self.ibufs.set(
                    id,
                    IncomingState {
                        meter: super::iobufs::IncomingMeterState {
                            subscriptions: incoming.meter.subscriptions.remove(filter),
                            ..incoming.meter
                        },
                        ..incoming
                    },
                ),
                ..self
            };
            if !connection.subscriptions.contains(filter) {
                removed
            } else {
                RouterState {
                    connections: removed.connections.set(
                        id,
                        ConnectionState {
                            subscriptions: connection.subscriptions.remove(filter),
                            ..connection
                        },
                    ),
                    ..removed
                }.unasked(id, filter).with_ack(id, AckView::UnsubAck(pkid, Seq::empty()))
            }
        }
    }

    /// Whether taking a subscription away is answered.
    pub open spec fn unsubscription_acked(self, id: ConnectionId, filter: Seq<char>) -> bool {
        lists(self.subscription_map, filter, id) && self.connections.at(id).subscriptions.contains(filter)
    }

    /// What a connection sent is handled, packet by packet.
    pub open spec fn payload_handled(self, id: ConnectionId, moment: Moment) -> Self {
        if !self.ibufs.has(id) {
            self
        } else {
            self.turn(id).packets(id, self.ibufs.at(id).buffer, moment.now).finish(id, moment)
        }
    }

    /// The packets of a connection are taken out of its inbox.
    pub open spec fn turn(self, id: ConnectionId) -> Turn {
        let incoming = self.ibufs.at(id);
        Turn {
            state: RouterState {
                ibufs: self.ibufs.set(id, IncomingState { buffer: Seq::empty(), ..incoming }),
                ..self
            },
            force_ack: false,
            new_data: false,
            disconnect: false,
            execute_will: true,
            stopped: false,
        }
    }

    /// Requests of a connection are served in turn, at most `n` of them.
    pub open spec fn served(
        self,
        id: ConnectionId,
        requests: Seq<DataRequest>,
        n: nat,
        now: Instant,
    ) -> Self
        decreases n,
    {
        if n == 0 {
            RouterState { scheduler: self.scheduler.trackv(id, requests), ..self }
        } else if requests.len() == 0 {
            RouterState { scheduler: self.scheduler.pause(id, PauseReason::Caughtup), ..self }
        } else {
            let rest = requests.subrange(1, requests.len() as int);
            let out = serve(requests[0], self.datalog, self.obufs.at(id), self.alertlog, now);
            let next = RouterState {
                obufs: self.obufs.set(id, out.outgoing),
                alertlog: out.alertlog,
                ..self
            };
            match out.status {
                ConsumeStatus::BufferFull => next.paused(
                    id,
                    rest.push(out.request),
                    PauseReason::Busy,
                ),
                ConsumeStatus::InflightFull => next.paused(
                    id,
                    rest.push(out.request),
                    PauseReason::InflightFull,
                ),
                ConsumeStatus::FilterCaughtup => RouterState {
                    datalog: next.datalog.park(id, out.request),
                    ..next
                }.served(id, rest, (n - 1) as nat, now),
                ConsumeStatus::PartialRead => next.served(
                    id,
                    rest.push(out.request),
                    (n - 1) as nat,
                    now,
                ),
            }
        }
    }

    /// A connection is paused and keeps its requests.
    pub open spec fn paused(
        self,
        id: ConnectionId,
        requests: Seq<DataRequest>,
        reason: PauseReason,
    ) -> Self {
        RouterState { scheduler: self.scheduler.pause(id, reason).trackv(id, requests), ..self }
    }

    /// The first connection in the queue has its turn: it gets its acks, and its
    /// requests are served.
    pub open spec fn consumed(self, now: Instant) -> Self {
        if self.scheduler.readyqueue.len() == 0 {
            self
        } else {
            let id = self.scheduler.readyqueue[0];
            let polled = RouterState { scheduler: self.scheduler.polled(), ..self };
            if !self.live(id) {
                polled
            } else {
                polled.acked(id).served(
                    id,
                    self.scheduler.polled_requests(),
                    MAX_SCHEDULE_ITERATIONS as nat,
                    now,
                )
            }
        }
    }

    /// The acks that are pending for a connection go to its outbox.
    pub open spec fn acked(self, id: ConnectionId) -> Self {
        let acks = self.ackslog.at(id);
        RouterState {
            ackslog: self.ackslog.set(id, AckLogState { committed: Seq::empty(), ..acks }),
            obufs: self.obufs.set(id, with_acks(self.obufs.at(id), acks.committed)),
            ..self
        }
    }

    /// A link has put a packet into the inbox of a connection.
    pub open spec fn deposited(self, id: ConnectionId, packet: Packet) -> Self {
        let incoming = self.ibufs.at(id);
        RouterState {
            ibufs: self.ibufs.set(
                id,
                IncomingState { buffer: incoming.buffer.push(packet), ..incoming },
            ),
            ..self
        }
    }

    /// A link has taken all that was in the outbox of a connection.
    pub open spec fn collected(self, id: ConnectionId) -> Self {
        let outgoing = self.obufs.at(id);
        RouterState {
            obufs: self.obufs.set(
                id,
                OutgoingState { buffer: Seq::empty(), woken: false, ..outgoing },
            ),
            ..self
        }
    }

    /// A connection is answered what the last publish of a filter is.
    pub open spec fn shadowed(self, id: ConnectionId, filter: Seq<char>) -> Self {
        RouterState {
            obufs: self.obufs.set(id, with_shadow(self.datalog, self.obufs.at(id), filter)),
            ..self
        }
    }
}

/// How far the packets of a connection are handled.
#[verifier::ext_equal]
pub struct Turn {
    pub state: RouterState,
    /// Whether acks are pending for the connection.
    pub force_ack: bool,
    /// Whether something has come in that others may wait for.
    pub new_data: bool,
    pub disconnect: bool,
    pub execute_will: bool,
    /// Whether the packets that are left are dropped.
    pub stopped: bool,
}

/// How far the filters of a subscription are handled.
#[verifier::ext_equal]
pub struct Subscribing {
    pub state: RouterState,
    pub codes: Seq<SubscribeReasonCode>,
    /// Whether a filter was refused. The filters behind it are not looked at.
    pub refused: bool,
}

/// How far the filters that are given up are handled.
#[verifier::ext_equal]
pub struct Unsubscribing {
    pub state: RouterState,
    pub any: bool,
}

impl Subscribing {
    pub open spec fn filter(self, id: ConnectionId, filter: Filter) -> Self {
        let state = self.state;
        if self.refused {
            self
        } else if subscription_verdict(
            state.connections.at(id),
            state.config.validate_tenant_prefix,
            filter,
        ) is Err {
            Subscribing { refused: true, ..self }
        } else {
            Subscribing {
                state: state.subscribed(id, filter),
                codes: self.codes.push(reason_code(filter.qos)),
                refused: false,
            }
        }
    }

    pub open spec fn filters(self, id: ConnectionId, filters: Seq<Filter>) -> Self
        decreases filters.len(),
    {
        if filters.len() == 0 {
            self
        } else {
            self.filters(id, filters.drop_last()).filter(id, filters.last())
        }
    }
}

impl Unsubscribing {
    pub open spec fn filter(self, id: ConnectionId, filter: Seq<char>, pkid: u16) -> Self {
        Unsubscribing {
            state: self.state.unsubscribed(id, filter, pkid),
            any: self.any || self.state.unsubscription_acked(id, filter),
        }
    }

    pub open spec fn filters(self, id: ConnectionId, filters: Seq<String>, pkid: u16) -> Self
        decreases filters.len(),
    {
        if filters.len() == 0 {
            self
        } else {
            self.filters(id, filters.drop_last(), pkid).filter(id, filters.last()@, pkid)
        }
    }
}

impl Turn {
    pub open spec fn with_state(self, state: RouterState) -> Self {
        Turn { state, ..self }
    }

    /// The connection is to end, and what it sent next is dropped.
    pub open spec fn stop(self) -> Self {
        Turn { disconnect: true, stopped: true, ..self }
    }

    pub open spec fn publish(
        self,
        id: ConnectionId,
        publish: Publish,
        props: Option<PublishProperties>,
        now: Instant,
    ) -> Self {
        if publish.qos is ExactlyOnce {
            self.stop()
        } else {
            let acked = if publish.qos is AtLeastOnce {
                Turn {
                    state: self.state.with_ack(
                        id,
                        AckView::PubAck(
                            PubAck { pkid: publish.pkid, reason: PubAckReason::Success },
                        ),
                    ),
                    force_ack: true,
                    ..self
                }
            } else {
                self
            };
            let counted = RouterState {
                router_meters: RouterMeter {
                    total_publishes: acked.state.router_meters.total_publishes.wrapping_add(1),
                    ..acked.state.router_meters
                },
                ..acked.state
            };
            let published = counted.published(id, publish, props, now);
            if counted.publish_outcome(id, publish, props, now).outcome is Ok {
                let incoming = published.ibufs.at(id);
                Turn {
                    state: RouterState {
                        ibufs: published.ibufs.set(
                            id,
                            IncomingState {
                                meter: incoming.meter.register_publish(publish),
                                ..incoming
                            },
                        ),
                        ..published
                    },
                    new_data: true,
                    ..acked
                }
            } else {
                acked.with_state(published.with_failure()).stop()
            }
        }
    }

    pub open spec fn subscribe(
        self,
        id: ConnectionId,
        client_id: Seq<char>,
        pkid: u16,
        filters: Seq<Filter>,
    ) -> Self {
        let done = Subscribing { state: self.state, codes: Seq::empty(), refused: false }.filters(
            id,
            filters,
        );
        Turn {
            state: done.state.with_alert(
                AlertView::Subscribe(client_id, pkid, filters),
            ).with_ack(id, AckView::SubAck(pkid, done.codes)),
            force_ack: true,
            new_data: true,
            disconnect: self.disconnect || done.refused,
            ..self
        }
    }

    pub open spec fn unsubscribe(
        self,
        id: ConnectionId,
        client_id: Seq<char>,
        pkid: u16,
        filters: Seq<String>,
    ) -> Self {
        let done = Unsubscribing { state: self.state, any: false }.filters(id, filters, pkid);
        Turn {
            state: done.state.with_alert(AlertView::Unsubscribe(client_id, pkid, filters)),
            force_ack: self.force_ack || done.any,
            new_data: true,
            ..self
        }
    }

    /// The oldest publish to the connection is acked, by the packet id that is
    /// given.
    pub open spec fn ack(self, id: ConnectionId, pkid: u16) -> Self {
        let outgoing = self.state.obufs.at(id);
        let acked = self.with_state(
            RouterState { obufs: self.state.obufs.set(id, outgoing.acked()), ..self.state },
        );
        if outgoing.ack_is_due(pkid) {
            acked
        } else {
            acked.stop()
        }
    }

    pub open spec fn puback(self, id: ConnectionId, pkid: u16) -> Self {
        let acked = self.ack(id, pkid);
        if acked.stopped {
            acked
        } else {
            acked.with_state(acked.state.rescheduled(id, ScheduleReason::IncomingAck))
        }
    }

    pub open spec fn pubrec(self, id: ConnectionId, pkid: u16) -> Self {
        let acked = self.ack(id, pkid);
        if acked.stopped {
            acked
        } else {
            acked.with_state(
                acked.state.with_ack(
                    id,
                    AckView::PubRel(PubRel { pkid, reason: PubRelReason::Success }),
                ).rescheduled(id, ScheduleReason::IncomingAck),
            )
        }
    }

    /// The oldest publish of the connection that was recorded is released.
    pub open spec fn pubrel(self, id: ConnectionId, pkid: u16, now: Instant) -> Self {
        let acks = self.state.ackslog.at(id);
        let released = RouterState {
            ackslog: self.state.ackslog.set(
                id,
                acks.commit(
                    AckView::PubComp(PubComp { pkid, reason: PubCompReason::Success }),
                ).released(),
            ),
            ..self.state
        };
        if acks.recorded.len() == 0 {
            self.with_state(released).stop()
        } else {
            let publish = acks.recorded[0];
            let published = released.published(id, publish, None, now);
            if released.publish_outcome(id, publish, None, now).outcome is Ok {
                Turn { state: published, new_data: true, ..self }
            } else {
                self.with_state(published.with_failure()).stop()
            }
        }
    }

    pub open spec fn ping(self, id: ConnectionId) -> Self {
        Turn { state: self.state.with_ack(id, AckView::PingResp), force_ack: true, ..self }
    }

    /// The client says goodbye. Its last will is not for that case.
    pub open spec fn goodbye(self, client_id: Seq<char>) -> Self {
        Turn {
            state: self.state.with_alert(AlertView::Disconnect(client_id)),
            new_data: true,
            execute_will: false,
            ..self
        }.stop()
    }

    pub open spec fn packet(
        self,
        id: ConnectionId,
        client_id: Seq<char>,
        packet: Packet,
        now: Instant,
    ) -> Self {
        if self.stopped {
            self
        } else {
            match packet {
                Packet::Publish(publish, props) => self.publish(id, publish, props, now),
                Packet::Subscribe(subscribe) => self.subscribe(
                    id,
                    client_id,
                    subscribe.pkid,
                    subscribe.filters@,
                ),
                Packet::Unsubscribe(unsubscribe) => self.unsubscribe(
                    id,
                    client_id,
                    unsubscribe.pkid,
                    unsubscribe.filters@,
                ),
                Packet::PubAck(ack) => self.puback(id, ack.pkid),
                Packet::PubRec(ack) => self.pubrec(id, ack.pkid),
                Packet::PubRel(ack, None) => self.pubrel(id, ack.pkid, now),
                Packet::PingReq => self.ping(id),
                Packet::Disconnect => self.goodbye(client_id),
                _ => self,
            }
        }
    }

    pub open spec fn packets(self, id: ConnectionId, packets: Seq<Packet>, now: Instant) -> Self
        decreases packets.len(),
    {
        if packets.len() == 0 {
            self
        } else {
            let before = self.packets(id, packets.drop_last(), now);
            before.packet(id, self.state.ibufs.at(id).client_id, packets.last(), now)
        }
    }

    /// The connection is queued where acks are pending for it, those who wait
    /// are told, and the connection ends where it has to.
    pub open spec fn finish(self, id: ConnectionId, moment: Moment) -> RouterState {
        let acked = if self.force_ack {
            self.state.rescheduled(id, ScheduleReason::FreshData)
        } else {
            self.state
        };
        let told = if self.new_data {
            acked.settled()
        } else {
            acked
        };
        if self.disconnect {
            told.disconnected(id, self.execute_will, moment)
        } else {
            told
        }
    }
}

} // verus!
