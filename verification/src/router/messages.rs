//! What goes in and out of the router, and what it keeps per connection.
use crate::protocol::{
    ConnAck, LastWill, PubAck, PubComp, PubRec, PubRel, Publish, SubAck, SubscribeReasonCode,
    UnsubAck, UnsubAckReason,
};
use crate::registry::NameSet;
use crate::views::{group_views, views};
use bytes::Bytes;
use std::collections::VecDeque;
use vstd::prelude::*;

verus! {

broadcast use group_views;

/// The requests of one connection that are served before the next one's turn.
pub const MAX_SCHEDULE_ITERATIONS: usize = 100;

/// Notifications that wait for a link before its connection is paused.
pub const MAX_CHANNEL_CAPACITY: usize = 200;

/// The number of a connection.
pub type ConnectionId = usize;

#[derive(Debug, Clone, Copy, PartialEq, Eq, Structural)]
pub struct RouterConfig {
    /// Bytes after which a segment of a log is full.
    pub max_segment_size: usize,
    /// Segments that are kept of a log.
    pub max_mem_segments: usize,
    /// Publishes that are read at once for a connection without acks.
    pub max_read_len: u64,
    pub max_connections: usize,
    /// Whether clients of a tenant are held to the prefix of the tenant.
    pub validate_tenant_prefix: bool,
}

impl RouterConfig {
    /// Logs have room for something, and the tables fit the address space.
    pub open spec fn valid(self) -> bool {
        &&& 1 <= self.max_segment_size
        &&& 1 <= self.max_mem_segments
        &&& self.max_connections <= crate::arena::slot_limit()
    }

    pub fn is_valid(&self) -> (valid: bool)
        ensures
            valid == self.valid(),
    {
        1 <= self.max_segment_size && 1 <= self.max_mem_segments && self.max_connections
            <= usize::MAX / 128
    }
}

#[derive(Debug, Clone, Copy, PartialEq, Eq, Structural)]
pub struct RouterMeter {
    pub router_id: usize,
    pub total_connections: usize,
    pub total_subscriptions: usize,
    pub total_publishes: usize,
    pub failed_publishes: usize,
}

#[derive(Debug, Clone, Copy, PartialEq, Eq, Structural)]
pub struct SubscriptionMeter {
    pub count: usize,
    pub total_size: usize,
}

#[derive(Debug, Clone, Copy, PartialEq, Eq, Structural)]
pub struct OutgoingMeter {
    pub publish_count: usize,
    pub total_size: usize,
}

/// A standing order for the publishes of one filter.
#[derive(Debug, PartialEq, Eq)]
pub struct DataRequest {
    pub filter: String,
    pub filter_idx: usize,
    pub qos: u8,
    /// Where the next read starts.
    pub cursor: (u64, u64),
    /// Publishes read so far.
    pub read_count: usize,
    pub max_count: usize,
}

impl Clone for DataRequest {
    fn clone(&self) -> (copy: Self)
        ensures
            copy == *self,
    {
        DataRequest {
            filter: self.filter.clone(),
            filter_idx: self.filter_idx,
            qos: self.qos,
            cursor: self.cursor,
            read_count: self.read_count,
            max_count: self.max_count,
        }
    }
}

/// What was said to a client.
#[derive(Debug, PartialEq, Eq)]
pub enum Ack {
    ConnAck(usize, ConnAck),
    PubAck(PubAck),
    SubAck(SubAck),
    PubRec(PubRec),
    PubRel(PubRel),
    PubComp(PubComp),
    UnsubAck(UnsubAck),
    PingResp,
}

pub enum AckView {
    ConnAck(usize, ConnAck),
    PubAck(PubAck),
    SubAck(u16, Seq<SubscribeReasonCode>),
    PubRec(PubRec),
    PubRel(PubRel),
    PubComp(PubComp),
    UnsubAck(u16, Seq<UnsubAckReason>),
    PingResp,
}

impl View for Ack {
    type V = AckView;

    open spec fn view(&self) -> AckView {
        match *self {
            Ack::ConnAck(id, ack) => AckView::ConnAck(id, ack),
            Ack::PubAck(ack) => AckView::PubAck(ack),
            Ack::SubAck(ack) => AckView::SubAck(ack.pkid, ack.return_codes@),
            Ack::PubRec(ack) => AckView::PubRec(ack),
            Ack::PubRel(ack) => AckView::PubRel(ack),
            Ack::PubComp(ack) => AckView::PubComp(ack),
            Ack::UnsubAck(ack) => AckView::UnsubAck(ack.pkid, ack.reasons@),
            Ack::PingResp => AckView::PingResp,
        }
    }
}

/// A publish on its way to a subscriber, with its place in the log.
#[derive(Debug, PartialEq, Eq)]
pub struct Forward {
    pub cursor: (u64, u64),
    pub size: usize,
    pub publish: Publish,
}

#[derive(Debug, PartialEq, Eq)]
pub struct ShadowRequest {
    pub filter: String,
}

#[derive(Debug, PartialEq, Eq)]
pub struct ShadowReply {
    pub topic: Bytes,
    pub payload: Bytes,
}

/// What a link is handed for its client.
#[derive(Debug, PartialEq, Eq)]
pub enum Notification {
    Forward(Forward),
    DeviceAck(Ack),
    /// The link is to say when it is ready for more.
    Unschedule,
    Shadow(ShadowReply),
}

pub enum NotificationView {
    Forward(Forward),
    DeviceAck(AckView),
    Unschedule,
    Shadow(ShadowReply),
}

impl View for Notification {
    type V = NotificationView;

    open spec fn view(&self) -> NotificationView {
        match *self {
            Notification::Forward(forward) => NotificationView::Forward(forward),
            Notification::DeviceAck(ack) => NotificationView::DeviceAck(ack@),
            Notification::Unschedule => NotificationView::Unschedule,
            Notification::Shadow(reply) => NotificationView::Shadow(reply),
        }
    }
}

/// The last connections and disconnections of a client.
#[derive(Debug)]
pub struct ConnectionEvents {
    pub events: VecDeque<String>,
}

impl View for ConnectionEvents {
    type V = Seq<Seq<char>>;

    open spec fn view(&self) -> Seq<Seq<char>> {
        views(self.events@)
    }
}

/// Events that are remembered.
pub const MAX_EVENTS: usize = 10;

/// The history with one more event, from which the oldest one is dropped when
/// it grows too long.
pub open spec fn record_event(events: Seq<Seq<char>>, event: Seq<char>) -> Seq<Seq<char>> {
    let longer = events.push(event);
    if longer.len() > MAX_EVENTS {
        longer.subrange(1, longer.len() as int)
    } else {
        longer
    }
}

impl ConnectionEvents {
    pub fn new() -> (events: Self)
        ensures
            events@ == Seq::<Seq<char>>::empty(),
    {
        ConnectionEvents { events: VecDeque::new() }
    }

    pub fn record(&mut self, event: String)
        ensures
            final(self)@ == record_event(old(self)@, event@),
    {
        self.events.push_back(event);
        if self.events.len() > MAX_EVENTS {
            self.events.pop_front();
        }
    }

    pub fn copy(&self) -> (copy: Self)
        ensures
            copy@ == self@,
    {
        let mut events: VecDeque<String> = VecDeque::new();
        let mut i: usize = 0;
        while i < self.events.len()
            invariant
                i <= self.events.len(),
                events@ == self.events@.take(i as int),
            decreases self.events.len() - i,
        {
            events.push_back(self.events[i].clone());
            i = i + 1;
            assert(events@ =~= self.events@.take(i as int));
        }
        assert(events@ =~= self.events@);
        ConnectionEvents { events }
    }
}

/// What the router knows of a client that is connected.
pub struct Connection {
    /// What the topics of the client's tenant start with.
    pub tenant_prefix: Option<String>,
    /// Whether the session ends with the connection.
    pub clean: bool,
    /// Whether a publish may bring a filter of its own into being.
    pub dynamic_filters: bool,
    pub last_will: Option<LastWill>,
    pub subscriptions: NameSet,
    pub events: ConnectionEvents,
}

#[verifier::ext_equal]
pub struct ConnectionState {
    pub tenant_prefix: Option<String>,
    pub clean: bool,
    pub dynamic_filters: bool,
    pub last_will: Option<LastWill>,
    pub subscriptions: Set<Seq<char>>,
    pub events: Seq<Seq<char>>,
}

impl View for Connection {
    type V = ConnectionState;

    open spec fn view(&self) -> ConnectionState {
        ConnectionState {
            tenant_prefix: self.tenant_prefix,
            clean: self.clean,
            dynamic_filters: self.dynamic_filters,
            last_will: self.last_will,
            subscriptions: self.subscriptions@,
            events: self.events@,
        }
    }
}

} // verus!
