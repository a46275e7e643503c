//! What a router is asked, and what it answers.
use super::alertlog::{Alert, AlertLogState, AlertView};
use super::delivery::position_end;
use super::graveyard::{retrieved, unexpired};
use super::iobufs::{Incoming, IncomingMeter, IncomingMeterState, Outgoing};
use super::messages::{
    Connection, ConnectionEvents, ConnectionId, DataRequest, OutgoingMeter, RouterConfig,
    RouterMeter, ShadowRequest, SubscriptionMeter,
};
use super::scheduler::{ScheduleReason, Tracker, TrackerState};
use super::state::RouterState;
use crate::clock::Moment;
use crate::segments::log::Offset;
use crate::views::views;
use std::collections::VecDeque;
use std::time::Instant;
use vstd::prelude::*;

verus! {

/// Which meters are wanted.
#[derive(Debug)]
pub enum GetMeter {
    Router,
    /// Of one client, or of all.
    Connection(Option<String>),
    /// Of one filter, or of all that were subscribed to.
    Subscription(Option<String>),
}

#[derive(Debug)]
pub enum Meter {
    Router(usize, RouterMeter),
    Connection(String, Option<IncomingMeter>, Option<OutgoingMeter>),
    Subscription(String, Option<SubscriptionMeter>),
}

#[verifier::ext_equal]
pub enum MeterView {
    Router(usize, RouterMeter),
    Connection(Seq<char>, Option<IncomingMeterState>, Option<OutgoingMeter>),
    Subscription(Seq<char>, Option<SubscriptionMeter>),
}

impl View for Meter {
    type V = MeterView;

    open spec fn view(&self) -> MeterView {
        match *self {
            Meter::Router(id, meter) => MeterView::Router(id, meter),
            Meter::Connection(client_id, incoming, outgoing) => MeterView::Connection(
                client_id@,
                match incoming {
                    Some(incoming) => Some(incoming@),
                    None => None,
                },
                outgoing,
            ),
            Meter::Subscription(filter, meter) => MeterView::Subscription(filter@, meter),
        }
    }
}

/// What is to be reported.
#[derive(Debug)]
pub enum MetricsRequest {
    Config,
    Router,
    Connection(String),
    Subscriptions,
    Subscription(String),
    Waiters(String),
    ReadyQueue,
}

#[derive(Debug)]
pub enum MetricsReply {
    Config(RouterConfig),
    Router(RouterMeter),
    /// The history of a client, and what it waits for.
    Connection(Option<(ConnectionEvents, Tracker)>),
    /// The filters, and the clients that subscribed to each.
    Subscriptions(Vec<(String, Vec<String>)>),
    Subscription(Option<SubscriptionMeter>),
    /// The clients that wait for a filter, and what for.
    Waiters(Option<Vec<(String, DataRequest)>>),
    ReadyQueue(VecDeque<ConnectionId>),
}

/// What links tell a router.
pub enum Event {
    Connect { connection: Connection, incoming: Incoming, outgoing: Outgoing },
    /// Someone wants to know the meters.
    NewMeter,
    GetMeter(GetMeter),
    /// Someone wants to know of the alerts of some filters.
    NewAlert(Vec<String>),
    /// There is something in the inbox of the connection.
    DeviceData,
    Disconnect { execute_will: bool },
    /// The link can take more.
    Ready,
    Shadow(ShadowRequest),
    Metrics(MetricsRequest),
}

/// What a router answers at once.
#[derive(Debug)]
pub enum Reply {
    Nothing,
    /// For the one who wants to know the meters.
    Meters(usize, Vec<Meter>),
    /// For the one who wants to know of alerts.
    Alert(usize, Alert),
    Metrics(MetricsReply),
}

/// Events that are taken in before connections have their turn again.
pub const MAX_POLLS: usize = 500;

/// Connections that have their turn before events are taken in again.
pub const MAX_TURNS: usize = 100;

/// How far a round of the router has come.
#[derive(Debug, Clone, Copy, PartialEq, Eq, Structural)]
pub enum Progress {
    /// Nobody is ready. The next event has to be waited for.
    Waiting,
    /// So many events may still be taken in, as far as there are any.
    Polling(usize),
    /// The round can be finished.
    Done,
}

/// What links have for a router.
pub enum Received {
    Event(ConnectionId, Event),
    /// There is nothing at the moment.
    Empty,
    /// All links are gone.
    Disconnected,
}

/// How far a round has come after something was taken in.
pub open spec fn after_receipt(progress: Progress) -> Progress {
    match progress {
        Progress::Polling(left) => if left > 1 {
            Progress::Polling((left - 1) as usize)
        } else {
            Progress::Done
        },
        _ => Progress::Polling(MAX_POLLS),
    }
}

impl Progress {
    /// How far the round has come after something more was taken in.
    pub fn advance(self) -> (next: Progress)
        ensures
            next == after_receipt(self),
    {
        match self {
            Progress::Polling(left) => if left > 1 {
                Progress::Polling(left - 1)
            } else {
                Progress::Done
            },
            _ => Progress::Polling(MAX_POLLS),
        }
    }
}

/// Whether keys are listed, each once.
pub open spec fn lists_keys(order: Seq<Seq<char>>, keys: Set<Seq<char>>) -> bool {
    &&& order.no_duplicates()
    &&& forall|key: Seq<char>| #[trigger] order.contains(key) <==> keys.contains(key)
}

impl RouterState {
    /// The meters of a connection.
    pub open spec fn connection_meter(self, id: ConnectionId) -> MeterView {
        MeterView::Connection(
            self.obufs.at(id).client_id,
            Some(self.ibufs.at(id).meter),
            Some(self.obufs.at(id).meter),
        )
    }

    /// The meters of all connections below a number.
    pub open spec fn connection_meters(self, n: nat) -> Seq<MeterView>
        decreases n,
    {
        if n == 0 {
            Seq::empty()
        } else {
            let before = self.connection_meters((n - 1) as nat);
            let id = (n - 1) as usize;
            if self.obufs.has(id) {
                before.push(self.connection_meter(id))
            } else {
                before
            }
        }
    }

    pub open spec fn subscription_meter(self, filter: Seq<char>) -> MeterView {
        MeterView::Subscription(filter, self.datalog.meter(filter))
    }

    /// Whether these are the meters that are wanted.
    pub open spec fn meters_answer(self, wanted: GetMeter, meters: Seq<MeterView>) -> bool {
        match wanted {
            GetMeter::Router => meters == seq![MeterView::Router(self.id, self.router_meters)],
            GetMeter::Connection(Some(client_id)) => if self.connection_map.contains_key(
                client_id@,
            ) {
                meters == seq![self.connection_meter(self.connection_map[client_id@])]
            } else {
                meters == seq![MeterView::Connection(Seq::empty(), None, None)]
            },
            GetMeter::Connection(None) => meters == self.connection_meters(self.obufs.rows.len()),
            GetMeter::Subscription(Some(filter)) => meters == seq![self.subscription_meter(
                filter@,
            )],
            GetMeter::Subscription(None) => exists|order: Seq<Seq<char>>| #[trigger]
                lists_keys(order, self.subscription_map.dom()) && meters == order.map_values(
                    |filter: Seq<char>| self.subscription_meter(filter),
                ),
        }
    }

    /// The history of a client and what it waits for, connected or not.
    pub open spec fn client_metrics(self, client_id: Seq<char>, now: Instant) -> Option<
        (Seq<Seq<char>>, TrackerState),
    > {
        if self.connection_map.contains_key(client_id) {
            let id = self.connection_map[client_id];
            Some((self.connections.at(id).events, self.scheduler.trackers.at(id)))
        } else {
            match retrieved(self.graveyard, client_id, now) {
                Some(saved) => Some((saved.metrics, saved.tracker)),
                None => None,
            }
        }
    }

    /// The clients among the connections below a number that are in a set.
    pub open spec fn clients_in(self, ids: Set<ConnectionId>, n: nat) -> Seq<Seq<char>>
        decreases n,
    {
        if n == 0 {
            Seq::empty()
        } else {
            let before = self.clients_in(ids, (n - 1) as nat);
            let id = (n - 1) as usize;
            if ids.contains(id) {
                before.push(self.obufs.at(id).client_id)
            } else {
                before
            }
        }
    }

    /// Whether a filter is reported with the clients that subscribed to it.
    pub open spec fn subscribers_answer(
        self,
        filter: Seq<char>,
        row: (String, Vec<String>),
    ) -> bool {
        &&& row.0@ == filter
        &&& views(row.1@) == self.clients_in(
            self.subscription_map[filter],
            self.obufs.rows.len(),
        )
    }

    /// Whether this is what is to be reported.
    pub open spec fn metrics_answer(
        self,
        request: MetricsRequest,
        now: Instant,
        reply: MetricsReply,
    ) -> bool {
        match (request, reply) {
            (MetricsRequest::Config, MetricsReply::Config(config)) => config == self.config,
            (MetricsRequest::Router, MetricsReply::Router(meter)) => meter == self.router_meters,
            (MetricsRequest::Connection(client_id), MetricsReply::Connection(metrics)) => {
                match metrics {
                    Some((events, tracker)) => self.client_metrics(client_id@, now) == Some(
                        (events@, tracker@),
                    ),
                    None => self.client_metrics(client_id@, now) is None,
                }
            },
            (MetricsRequest::Subscriptions, MetricsReply::Subscriptions(rows)) => {
                exists|order: Seq<Seq<char>>| #[trigger]
                    lists_keys(order, self.subscription_map.dom()) && rows@.len() == order.len()
                        && forall|i: int|
                        0 <= i < order.len() ==> self.subscribers_answer(
                            #[trigger] order[i],
                            rows@[i],
                        )
            },
            (MetricsRequest::Subscription(filter), MetricsReply::Subscription(meter)) => {
                meter == self.datalog.meter(filter@)
            },
            (MetricsRequest::Waiters(filter), MetricsReply::Waiters(rows)) => {
                match (self.datalog.waiters(filter@), rows) {
                    (Some(waiters), Some(rows)) => {
                        &&& rows@.len() == waiters.len()
                        &&& forall|i: int|
                            0 <= i < waiters.len() ==> (#[trigger] rows@[i]).0@ == self.obufs.at(
                                waiters[i].0,
                            ).client_id && rows@[i].1 == waiters[i].1
                    },
                    (None, None) => true,
                    _ => false,
                }
            },
            (MetricsRequest::ReadyQueue, MetricsReply::ReadyQueue(queue)) => {
                queue@ == self.scheduler.readyqueue
            },
            _ => false,
        }
    }

    /// A report takes the session of a client that is not connected out of the
    /// graveyard, and changes nothing else.
    pub open spec fn reported(self, request: MetricsRequest, now: Instant) -> Self {
        match request {
            MetricsRequest::Connection(client_id) => if self.connection_map.contains_key(
                client_id@,
            ) {
                self
            } else {
                RouterState {
                    graveyard: unexpired(self.graveyard, now).remove(client_id@),
                    ..self
                }
            },
            _ => self,
        }
    }

    /// Someone new wants to know of alerts, from now on.
    pub open spec fn alert_linked(self, filters: Seq<String>) -> Self {
        let opened = opened(self.alertlog, filters);
        RouterState {
            alertlog: opened.0,
            alerts: self.alerts.insert(opened.1),
            ..self
        }
    }

    /// Whether an event can be handled: what it is about is there, and there is
    /// room for what it brings.
    pub open spec fn accepts(self, id: ConnectionId, event: Event) -> bool {
        match event {
            Event::NewMeter => self.meters.has_room(),
            Event::NewAlert(_) => self.alerts.has_room(),
            Event::GetMeter(_) => self.meters.has(id),
            Event::Shadow(_) => self.live(id),
            _ => true,
        }
    }

    /// What an event makes of a router.
    pub open spec fn after_event(self, id: ConnectionId, event: Event, moment: Moment) -> Self {
        match event {
            Event::Connect { connection, incoming, outgoing } => self.connected(
                connection@,
                incoming@,
                outgoing@,
                moment,
            ),
            Event::NewMeter => RouterState { meters: self.meters.insert(()), ..self },
            Event::GetMeter(_) => self,
            Event::NewAlert(filters) => self.alert_linked(filters@),
            Event::DeviceData => self.payload_handled(id, moment),
            Event::Disconnect { execute_will } => self.disconnected(id, execute_will, moment),
            Event::Ready => self.rescheduled(id, ScheduleReason::Ready),
            Event::Shadow(request) => self.shadowed(id, request.filter@),
            Event::Metrics(request) => self.reported(request, moment.now),
        }
    }

    /// Whether an event is answered like this.
    pub open spec fn event_answer(
        self,
        id: ConnectionId,
        event: Event,
        now: Instant,
        reply: Reply,
    ) -> bool {
        match event {
            Event::NewMeter => {
                &&& reply matches Reply::Meters(meter_id, meters)
                &&& meter_id == self.meters.next_key()
                &&& self.meters_answer(GetMeter::Router, views(meters@))
            },
            Event::GetMeter(wanted) => {
                &&& reply matches Reply::Meters(meter_id, meters)
                &&& meter_id == id
                &&& self.meters_answer(wanted, views(meters@))
            },
            Event::NewAlert(_) => {
                &&& reply matches Reply::Alert(alert_id, alert)
                &&& alert_id == self.alerts.next_key()
                &&& alert@ == AlertView::Connect("AlertsLink"@)
            },
            Event::Metrics(request) => {
                &&& reply matches Reply::Metrics(metrics)
                &&& self.metrics_answer(request, now, metrics)
            },
            _ => reply is Nothing,
        }
    }

    /// Connections have their turn, one after the other.
    pub open spec fn consumed_times(self, n: nat, now: Instant) -> Self
        decreases n,
    {
        if n == 0 {
            self
        } else {
            self.consumed_times((n - 1) as nat, now).consumed(now)
        }
    }

    /// Alerts are handed out to all who want to know of them.
    pub open spec fn alerts_sent(self) -> Self {
        RouterState {
            alerts: crate::arena::Slots {
                rows: Seq::new(
                    self.alerts.rows.len(),
                    |i: int|
                        match self.alerts.rows[i] {
                            Some(link) => Some(read_on(self.alertlog, link)),
                            None => None,
                        },
                ),
                ..self.alerts
            },
            ..self
        }
    }
}

/// Alerts that are read at once from a log.
pub const ALERT_READ_LEN: u64 = 100;

/// The logs after some filters were asked for, and the filters with the places
/// where their logs end.
pub open spec fn opened(alertlog: AlertLogState, filters: Seq<String>) -> (
    AlertLogState,
    Seq<(Seq<char>, Offset)>,
)
    decreases filters.len(),
{
    if filters.len() == 0 {
        (alertlog, Seq::empty())
    } else {
        let before = opened(alertlog, filters.drop_last());
        let filter = filters.last()@;
        (before.0.ensure_log(filter), before.1.push((filter, before.0.next_offset(filter))))
    }
}

/// How far the logs are read after a round.
pub open spec fn read_on(alertlog: AlertLogState, link: Seq<(Seq<char>, Offset)>) -> Seq<
    (Seq<char>, Offset),
> {
    link.map_values(
        |entry: (Seq<char>, Offset)|
            (
                entry.0,
                position_end(
                    alertlog.log(entry.0).log.read_position(entry.1, ALERT_READ_LEN),
                ),
            ),
    )
}

/// The alerts that are read from the logs of some filters.
pub open spec fn alerts_for(alertlog: AlertLogState, link: Seq<(Seq<char>, Offset)>) -> Seq<
    AlertView,
>
    decreases link.len(),
{
    if link.len() == 0 {
        Seq::empty()
    } else {
        let last = link.last();
        alerts_for(alertlog, link.drop_last()) + alertlog.log(last.0).log.read(
            last.1,
            ALERT_READ_LEN,
        ).map_values(|entry: (AlertView, Offset)| entry.0)
    }
}

/// What is handed out to whom in a round.
pub open spec fn deliveries(
    alertlog: AlertLogState,
    rows: Seq<Option<Seq<(Seq<char>, Offset)>>>,
) -> Seq<(usize, AlertView)>
    decreases rows.len(),
{
    if rows.len() == 0 {
        Seq::empty()
    } else {
        let before = deliveries(alertlog, rows.drop_last());
        match rows.last() {
            Some(link) => before + alerts_for(alertlog, link).map_values(
                |alert: AlertView| ((rows.len() - 1) as usize, alert),
            ),
            None => before,
        }
    }
}

pub open spec fn view_deliveries(sent: Seq<(usize, Alert)>) -> Seq<(usize, AlertView)> {
    Seq::new(sent.len(), |i: int| (sent[i].0, sent[i].1@))
}

} // verus!
