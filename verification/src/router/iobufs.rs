//! What links hand in, and what they are handed.
use super::messages::{Forward, Notification, NotificationView, OutgoingMeter};
use crate::payload::bytes_len;
use crate::protocol::{Packet, Publish};
use crate::registry::NameSet;
use crate::segments::log::Offset;
use crate::segments::utils::serde::publish_size;
use crate::views::{group_views, views};
use std::collections::VecDeque;
use vstd::prelude::*;

verus! {

broadcast use group_views;

/// Publishes that may be on their way to a client without an ack.
pub const MAX_INFLIGHT: usize = 100;

/// The last packet id. The one after it is 1 again.
pub const MAX_PKID: u16 = 100;

/// What a publish counts for, as far as it can be told.
pub open spec fn capped_size(publish: Publish) -> usize {
    if publish_size(publish) > usize::MAX {
        usize::MAX
    } else {
        publish_size(publish) as usize
    }
}

pub fn publish_weight(publish: &Publish) -> (size: usize)
    ensures
        size == capped_size(*publish),
{
    bytes_len(&publish.topic).saturating_add(bytes_len(&publish.payload)).saturating_add(4)
}

/// What came in over a link.
#[derive(Debug)]
pub struct IncomingMeter {
    pub publish_count: usize,
    pub total_size: usize,
    pub subscriptions: NameSet,
}

#[verifier::ext_equal]
pub struct IncomingMeterState {
    pub publish_count: usize,
    pub total_size: usize,
    pub subscriptions: Set<Seq<char>>,
}

impl View for IncomingMeter {
    type V = IncomingMeterState;

    open spec fn view(&self) -> IncomingMeterState {
        IncomingMeterState {
            publish_count: self.publish_count,
            total_size: self.total_size,
            subscriptions: self.subscriptions@,
        }
    }
}

impl IncomingMeterState {
    pub open spec fn empty() -> Self {
        IncomingMeterState { publish_count: 0, total_size: 0, subscriptions: Set::empty() }
    }

    pub open spec fn register_publish(self, publish: Publish) -> Self {
        IncomingMeterState {
            publish_count: self.publish_count.wrapping_add(1),
            total_size: self.total_size.wrapping_add(capped_size(publish)),
            ..self
        }
    }
}

impl IncomingMeter {
    pub fn new() -> (meter: Self)
        ensures
            meter@ == IncomingMeterState::empty(),
    {
        IncomingMeter { publish_count: 0, total_size: 0, subscriptions: NameSet::new() }
    }

    pub fn register_publish(&mut self, publish: &Publish)
        ensures
            final(self)@ == old(self)@.register_publish(*publish),
    {
        self.publish_count = self.publish_count.wrapping_add(1);
        self.total_size = self.total_size.wrapping_add(publish_weight(publish));
    }

    pub fn register_subscription(&mut self, filter: String)
        ensures
            final(self)@ == (IncomingMeterState {
                subscriptions: old(self)@.subscriptions.insert(filter@),
                ..old(self)@
            }),
    {
        self.subscriptions.insert(filter);
    }

    pub fn unregister_subscription(&mut self, filter: &String)
        ensures
            final(self)@ == (IncomingMeterState {
                subscriptions: old(self)@.subscriptions.remove(filter@),
                ..old(self)@
            }),
    {
        self.subscriptions.remove(filter);
    }

    pub fn copy(&self) -> (copy: Self)
        ensures
            copy@ == self@,
    {
        IncomingMeter {
            publish_count: self.publish_count,
            total_size: self.total_size,
            subscriptions: self.subscriptions.copy(),
        }
    }
}

/// The inbox of a connection.
#[derive(Debug)]
pub struct Incoming {
    pub client_id: String,
    pub buffer: VecDeque<Packet>,
    pub meter: IncomingMeter,
}

#[verifier::ext_equal]
pub struct IncomingState {
    pub client_id: Seq<char>,
    pub buffer: Seq<Packet>,
    pub meter: IncomingMeterState,
}

impl View for Incoming {
    type V = IncomingState;

    open spec fn view(&self) -> IncomingState {
        IncomingState { client_id: self.client_id@, buffer: self.buffer@, meter: self.meter@ }
    }
}

impl Incoming {
    pub fn new(client_id: String) -> (incoming: Self)
        ensures
            incoming@.client_id == client_id@,
            incoming@.buffer == Seq::<Packet>::empty(),
            incoming@.meter == IncomingMeterState::empty(),
    {
        Incoming { client_id, buffer: VecDeque::new(), meter: IncomingMeter::new() }
    }

    /// Takes the packets out and leaves another buffer in their place.
    pub fn exchange(&mut self, cache: VecDeque<Packet>) -> (packets: VecDeque<Packet>)
        ensures
            packets@ == old(self)@.buffer,
            final(self)@ == (IncomingState { buffer: cache@, ..old(self)@ }),
    {
        let mut packets = cache;
        std::mem::swap(&mut self.buffer, &mut packets);
        packets
    }
}

/// The outbox of a connection.
#[derive(Debug)]
pub struct Outgoing {
    pub client_id: String,
    /// What the link is to take out.
    pub buffer: VecDeque<Notification>,
    /// What was sent and is not acked: the packet id, the filter and the place
    /// in the log of the filter.
    pub inflight: VecDeque<(u16, usize, (u64, u64))>,
    pub last_pkid: u16,
    pub meter: OutgoingMeter,
    /// Whether the link is to be told that there is something for it.
    pub woken: bool,
}

#[verifier::ext_equal]
pub struct OutgoingState {
    pub client_id: Seq<char>,
    pub buffer: Seq<NotificationView>,
    pub inflight: Seq<(u16, usize, (u64, u64))>,
    pub last_pkid: u16,
    pub meter: OutgoingMeter,
    pub woken: bool,
}

impl View for Outgoing {
    type V = OutgoingState;

    open spec fn view(&self) -> OutgoingState {
        OutgoingState {
            client_id: self.client_id@,
            buffer: views(self.buffer@),
            inflight: self.inflight@,
            last_pkid: self.last_pkid,
            meter: self.meter,
            woken: self.woken,
        }
    }
}

/// The first place in the log of a filter that was sent and is not acked.
pub open spec fn first_unacked(
    inflight: Seq<(u16, usize, (u64, u64))>,
    filter_idx: usize,
) -> Option<Offset>
    decreases inflight.len(),
{
    if inflight.len() == 0 {
        None
    } else {
        let first = first_unacked(inflight.drop_last(), filter_idx);
        if first is Some {
            first
        } else if inflight.last().1 == filter_idx {
            Some(inflight.last().2)
        } else {
            None
        }
    }
}

impl OutgoingState {
    pub open spec fn next_pkid(self) -> u16 {
        if self.last_pkid >= MAX_PKID {
            1
        } else {
            (self.last_pkid + 1) as u16
        }
    }

    pub open spec fn free_slots(self) -> int {
        if self.inflight.len() >= MAX_INFLIGHT {
            0
        } else {
            MAX_INFLIGHT - self.inflight.len()
        }
    }

    pub open spec fn notify(self, notification: NotificationView) -> Self {
        OutgoingState { buffer: self.buffer.push(notification), ..self }
    }

    pub open spec fn wake(self) -> Self {
        OutgoingState { woken: true, ..self }
    }

    /// The outbox with one more publish. Where acks are due, the publish gets
    /// the next packet id and is remembered until it is acked.
    pub open spec fn push_forward(self, forward: Forward, qos: u8, filter_idx: usize) -> Self {
        let meter = OutgoingMeter {
            publish_count: self.meter.publish_count.wrapping_add(1),
            total_size: self.meter.total_size.wrapping_add(capped_size(forward.publish)),
        };
        if qos == 0 {
            OutgoingState {
                buffer: self.buffer.push(NotificationView::Forward(forward)),
                meter,
                ..self
            }
        } else {
            let pkid = self.next_pkid();
            let numbered = Forward { publish: Publish { pkid, ..forward.publish }, ..forward };
            OutgoingState {
                buffer: self.buffer.push(NotificationView::Forward(numbered)),
                inflight: self.inflight.push((pkid, filter_idx, forward.cursor)),
                last_pkid: if pkid == MAX_PKID {
                    0
                } else {
                    pkid
                },
                meter,
                ..self
            }
        }
    }

    pub open spec fn push_forwards(self, forwards: Seq<Forward>, qos: u8, filter_idx: usize) -> Self
        decreases forwards.len(),
    {
        if forwards.len() == 0 {
            self
        } else {
            self.push_forwards(forwards.drop_last(), qos, filter_idx).push_forward(
                forwards.last(),
                qos,
                filter_idx,
            )
        }
    }

    /// Publishes change nothing of whose outbox it is; each adds one to what
    /// waits for the link, and one to what waits for an ack where acks are due.
    pub proof fn lemma_push_forwards(self, forwards: Seq<Forward>, qos: u8, filter_idx: usize)
        ensures
            self.push_forwards(forwards, qos, filter_idx).client_id == self.client_id,
            self.push_forwards(forwards, qos, filter_idx).buffer.len() == self.buffer.len()
                + forwards.len(),
            qos == 0 ==> self.push_forwards(forwards, qos, filter_idx).inflight == self.inflight,
            qos != 0 ==> self.push_forwards(forwards, qos, filter_idx).inflight.len()
                == self.inflight.len() + forwards.len(),
        decreases forwards.len(),
    {
        if forwards.len() > 0 {
            self.lemma_push_forwards(forwards.drop_last(), qos, filter_idx);
        }
    }

    /// The outbox after an ack: the oldest publish is no longer waited for.
    pub open spec fn acked(self) -> Self {
        if self.inflight.len() == 0 {
            self
        } else {
            OutgoingState {
                inflight: self.inflight.subrange(1, self.inflight.len() as int),
                ..self
            }
        }
    }

    /// Whether an ack is for the oldest publish that is waited for.
    pub open spec fn ack_is_due(self, pkid: u16) -> bool {
        self.inflight.len() > 0 && self.inflight[0].0 == pkid
    }
}

impl Outgoing {
    pub fn new(client_id: String) -> (outgoing: Self)
        ensures
            outgoing@ == (OutgoingState {
                client_id: client_id@,
                buffer: Seq::empty(),
                inflight: Seq::empty(),
                last_pkid: 0,
                meter: OutgoingMeter { publish_count: 0, total_size: 0 },
                woken: false,
            }),
    {
        Outgoing {
            client_id,
            buffer: VecDeque::new(),
            inflight: VecDeque::new(),
            last_pkid: 0,
            meter: OutgoingMeter { publish_count: 0, total_size: 0 },
            woken: false,
        }
    }

    pub fn free_slots(&self) -> (slots: usize)
        ensures
            slots == self@.free_slots(),
    {
        if self.inflight.len() >= MAX_INFLIGHT {
            0
        } else {
            MAX_INFLIGHT - self.inflight.len()
        }
    }

    /// Adds a notification. Gives the number of those that wait.
    pub fn push_notification(&mut self, notification: Notification) -> (len: usize)
        ensures
            final(self)@ == old(self)@.notify(notification@),
            len == final(self)@.buffer.len(),
    {
        self.buffer.push_back(notification);
        self.buffer.len()
    }

    /// Tells the link that there is something for it.
    pub fn wake(&mut self)
        ensures
            final(self)@ == old(self)@.wake(),
    {
        self.woken = true;
    }

    fn push_forward(&mut self, forward: Forward, qos: u8, filter_idx: usize)
        ensures
            final(self)@ == old(self)@.push_forward(forward, qos, filter_idx),
    {
        let mut forward = forward;
        self.meter.publish_count = self.meter.publish_count.wrapping_add(1);
        self.meter.total_size = self.meter.total_size.wrapping_add(
            publish_weight(&forward.publish),
        );
        if qos != 0 {
            let pkid: u16 = if self.last_pkid >= MAX_PKID {
                1
            } else {
                self.last_pkid + 1
            };
            forward.publish.pkid = pkid;
            self.inflight.push_back((pkid, filter_idx, forward.cursor));
            self.last_pkid = if pkid == MAX_PKID {
                0
            } else {
                pkid
            };
        }
        self.buffer.push_back(Notification::Forward(forward));
    }

    /// Adds publishes. Gives the number of notifications that wait, and of the
    /// publishes that are not acked.
    pub fn push_forwards(
        &mut self,
        forwards: VecDeque<Forward>,
        qos: u8,
        filter_idx: usize,
    ) -> (counts: (usize, usize))
        ensures
            final(self)@ == old(self)@.push_forwards(forwards@, qos, filter_idx),
            counts.0 == final(self)@.buffer.len(),
            counts.1 == final(self)@.inflight.len(),
    {
        let ghost before = self@;
        let ghost all = forwards@;
        let mut forwards = forwards;
        let ghost mut done: int = 0;
        proof {
            assert(all.take(0) =~= Seq::<Forward>::empty());
            assert(all.skip(0) =~= all);
        }
        while forwards.len() > 0
            invariant
                0 <= done <= all.len(),
                forwards@ == all.skip(done),
                self@ == before.push_forwards(all.take(done), qos, filter_idx),
            decreases forwards.len(),
        {
            assert(forwards@.len() == all.len() - done);
            let forward = forwards.pop_front().unwrap();
            proof {
                assert(forward == all[done]);
                assert(all.take(done + 1).drop_last() =~= all.take(done));
                assert(all.skip(done).skip(1) =~= all.skip(done + 1));
                done = done + 1;
            }
            self.push_forward(forward, qos, filter_idx);
        }
        assert(all.take(done) =~= all);
        (self.buffer.len(), self.inflight.len())
    }

    /// Takes an ack. Nothing comes back where it is not for the oldest publish
    /// that is waited for.
    pub fn register_ack(&mut self, pkid: u16) -> (due: Option<()>)
        ensures
            final(self)@ == old(self)@.acked(),
            due is Some == old(self)@.ack_is_due(pkid),
    {
        match self.inflight.pop_front() {
            None => None,
            Some(head) => {
                if head.0 == pkid {
                    Some(())
                } else {
                    None
                }
            },
        }
    }

    /// Where the log of a filter has to be read again for a client that comes
    /// back.
    pub fn retransmission(&self, filter_idx: usize) -> (cursor: Option<Offset>)
        ensures
            cursor == first_unacked(self@.inflight, filter_idx),
    {
        let mut cursor: Option<Offset> = None;
        let mut i: usize = 0;
        proof {
            assert(self.inflight@.take(0) =~= Seq::<(u16, usize, (u64, u64))>::empty());
        }
        while i < self.inflight.len()
            invariant
                i <= self.inflight.len(),
                cursor == first_unacked(self.inflight@.take(i as int), filter_idx),
            decreases self.inflight.len() - i,
        {
            proof {
                assert(self.inflight@.take(i + 1).drop_last() =~= self.inflight@.take(i as int));
            }
            if cursor.is_none() && self.inflight[i].1 == filter_idx {
                cursor = Some(self.inflight[i].2);
            }
            i = i + 1;
        }
        assert(self.inflight@.take(i as int) =~= self.inflight@);
        cursor
    }

    /// What waits for the link. After that nothing does.
    pub fn collect(&mut self) -> (notifications: VecDeque<Notification>)
        ensures
            views(notifications@) == old(self)@.buffer,
            final(self)@ == (OutgoingState { buffer: Seq::empty(), woken: false, ..old(self)@ }),
    {
        let mut notifications: VecDeque<Notification> = VecDeque::new();
        std::mem::swap(&mut self.buffer, &mut notifications);
        self.woken = false;
        notifications
    }
}

} // verus!
