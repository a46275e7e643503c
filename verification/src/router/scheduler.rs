//! Whose turn it is.
use super::messages::{ConnectionId, DataRequest};
use crate::arena::{slot_limit, Arena, Slots};
use std::collections::VecDeque;
use vstd::prelude::*;

verus! {

/// Why a connection is not served.
#[derive(Debug, Clone, Copy, PartialEq, Eq, Structural)]
pub enum PauseReason {
    /// There is nothing left for it.
    Caughtup,
    /// Too much that was sent to it is not acked.
    InflightFull,
    /// Its link cannot take more.
    Busy,
}

#[derive(Debug, Clone, Copy, PartialEq, Eq, Structural)]
pub enum Status {
    Ready,
    Paused(PauseReason),
}

/// Why a connection might be served again.
#[derive(Debug, Clone, Copy, PartialEq, Eq, Structural)]
pub enum ScheduleReason {
    Init,
    NewFilter,
    FreshData,
    IncomingAck,
    Ready,
}

/// Whether a reason to serve a connection meets the reason why it is paused.
pub open spec fn wakes(status: Status, reason: ScheduleReason) -> bool {
    match status {
        Status::Ready => false,
        Status::Paused(PauseReason::Busy) => reason is Init || reason is Ready,
        Status::Paused(PauseReason::InflightFull) => reason is IncomingAck,
        Status::Paused(PauseReason::Caughtup) => reason is NewFilter || reason is FreshData
            || reason is IncomingAck,
    }
}

/// What a connection is waiting for.
#[derive(Debug)]
pub struct Tracker {
    pub id: String,
    pub data_requests: VecDeque<DataRequest>,
    pub status: Status,
}

#[verifier::ext_equal]
pub struct TrackerState {
    pub id: Seq<char>,
    pub data_requests: Seq<DataRequest>,
    pub status: Status,
}

impl View for Tracker {
    type V = TrackerState;

    open spec fn view(&self) -> TrackerState {
        TrackerState {
            id: self.id@,
            data_requests: self.data_requests@,
            status: self.status,
        }
    }
}

/// Whether a request is for another filter.
pub open spec fn other_than(filter: Seq<char>) -> spec_fn(DataRequest) -> bool {
    |request: DataRequest| request.filter@ != filter
}

impl TrackerState {
    pub open spec fn new(id: Seq<char>) -> Self {
        TrackerState {
            id,
            data_requests: Seq::empty(),
            status: Status::Paused(PauseReason::Busy),
        }
    }

    pub open spec fn pause(self, reason: PauseReason) -> Self {
        TrackerState { status: Status::Paused(reason), ..self }
    }

    pub open spec fn register(self, request: DataRequest) -> Self {
        TrackerState { data_requests: self.data_requests.push(request), ..self }
    }

    pub open spec fn unregister(self, filter: Seq<char>) -> Self {
        TrackerState {
            data_requests: self.data_requests.filter(other_than(filter)),
            ..self
        }
    }
}

impl Tracker {
    pub fn new(client_id: String) -> (tracker: Tracker)
        ensures
            tracker@ == TrackerState::new(client_id@),
    {
        let tracker = Tracker {
            id: client_id,
            data_requests: VecDeque::new(),
            status: Status::Paused(PauseReason::Busy),
        };
        assert(tracker@ =~= TrackerState::new(client_id@));
        tracker
    }

    pub fn pause(&mut self, reason: PauseReason)
        ensures
            final(self)@ == old(self)@.pause(reason),
    {
        self.status = Status::Paused(reason);
    }

    pub fn register_data_request(&mut self, request: DataRequest)
        ensures
            final(self)@ == old(self)@.register(request),
    {
        self.data_requests.push_back(request);
    }

    pub fn unregister_data_request(&mut self, filter: &String)
        ensures
            final(self)@ == old(self)@.unregister(filter@),
    {
        let ghost before = self.data_requests@;
        let ghost keep = other_than(filter@);
        let mut kept: VecDeque<DataRequest> = VecDeque::new();
        let mut i: usize = 0;
        while i < self.data_requests.len()
            invariant
                i <= before.len(),
                self.data_requests@ == before,
                keep == other_than(filter@),
                kept@ == before.take(i as int).filter(keep),
            decreases before.len() - i,
        {
            proof {
                assert(before.take(i + 1).drop_last() =~= before.take(i as int));
                reveal(Seq::filter);
            }
            if self.data_requests[i].filter != *filter {
                kept.push_back(self.data_requests[i].clone());
            }
            i = i + 1;
        }
        assert(before.take(before.len() as int) =~= before);
        self.data_requests = kept;
    }

    pub fn copy(&self) -> (copy: Self)
        ensures
            copy@ == self@,
    {
        Tracker {
            id: self.id.clone(),
            data_requests: copy_requests(&self.data_requests),
            status: self.status,
        }
    }

    /// Makes a paused connection ready, where the reason is what it waits for.
    pub fn try_ready(&mut self, reason: ScheduleReason) -> (ready: bool)
        ensures
            ready == wakes(old(self)@.status, reason),
            ready ==> final(self)@ == (TrackerState { status: Status::Ready, ..old(self)@ }),
            !ready ==> final(self)@ == old(self)@,
    {
        let ready = match self.status {
            Status::Ready => false,
            Status::Paused(PauseReason::Busy) => match reason {
                ScheduleReason::Init => true,
                ScheduleReason::Ready => true,
                _ => false,
            },
            Status::Paused(PauseReason::InflightFull) => match reason {
                ScheduleReason::IncomingAck => true,
                _ => false,
            },
            Status::Paused(PauseReason::Caughtup) => match reason {
                ScheduleReason::NewFilter => true,
                ScheduleReason::FreshData => true,
                ScheduleReason::IncomingAck => true,
                _ => false,
            },
        };
        if ready {
            self.status = Status::Ready;
        }
        ready
    }
}

pub fn copy_requests(requests: &VecDeque<DataRequest>) -> (copy: VecDeque<DataRequest>)
    ensures
        copy@ == requests@,
{
    let mut copy: VecDeque<DataRequest> = VecDeque::new();
    let mut i: usize = 0;
    while i < requests.len()
        invariant
            i <= requests.len(),
            copy@ == requests@.take(i as int),
        decreases requests.len() - i,
    {
        copy.push_back(requests[i].clone());
        i = i + 1;
        assert(copy@ =~= requests@.take(i as int));
    }
    assert(copy@ =~= requests@);
    copy
}

/// The trackers of the live connections, and the connections whose turn comes,
/// in order. A connection that is gone may still stand in the queue.
pub struct Scheduler {
    pub trackers: Arena<Tracker>,
    pub readyqueue: VecDeque<ConnectionId>,
}

#[verifier::ext_equal]
pub struct SchedulerState {
    pub trackers: Slots<TrackerState>,
    pub readyqueue: Seq<ConnectionId>,
}

impl View for Scheduler {
    type V = SchedulerState;

    open spec fn view(&self) -> SchedulerState {
        SchedulerState { trackers: self.trackers@, readyqueue: self.readyqueue@ }
    }
}

impl SchedulerState {
    pub open spec fn add(self, tracker: TrackerState) -> Self {
        SchedulerState { trackers: self.trackers.insert(tracker), ..self }
    }

    pub open spec fn remove(self, id: ConnectionId) -> Self {
        SchedulerState { trackers: self.trackers.remove(id), ..self }
    }

    pub open spec fn with_tracker(self, id: ConnectionId, tracker: TrackerState) -> Self {
        SchedulerState { trackers: self.trackers.set(id, tracker), ..self }
    }

    pub open spec fn track(self, id: ConnectionId, request: DataRequest) -> Self {
        if self.trackers.has(id) {
            self.with_tracker(id, self.trackers.at(id).register(request))
        } else {
            self
        }
    }

    pub open spec fn trackv(self, id: ConnectionId, requests: Seq<DataRequest>) -> Self {
        if self.trackers.has(id) {
            let tracker = self.trackers.at(id);
            self.with_tracker(
                id,
                TrackerState { data_requests: tracker.data_requests + requests, ..tracker },
            )
        } else {
            self
        }
    }

    pub open spec fn untrack(self, id: ConnectionId, filter: Seq<char>) -> Self {
        if self.trackers.has(id) {
            self.with_tracker(id, self.trackers.at(id).unregister(filter))
        } else {
            self
        }
    }

    pub open spec fn reschedule(self, id: ConnectionId, reason: ScheduleReason) -> Self {
        if self.trackers.has(id) && wakes(self.trackers.at(id).status, reason) {
            SchedulerState {
                trackers: self.trackers.set(
                    id,
                    TrackerState { status: Status::Ready, ..self.trackers.at(id) },
                ),
                readyqueue: self.readyqueue.push(id),
            }
        } else {
            self
        }
    }

    pub open spec fn pause(self, id: ConnectionId, reason: PauseReason) -> Self {
        if self.trackers.has(id) {
            SchedulerState {
                trackers: self.trackers.set(id, self.trackers.at(id).pause(reason)),
                readyqueue: if self.readyqueue.len() > 0 && self.readyqueue.last() == id {
                    self.readyqueue.drop_last()
                } else {
                    self.readyqueue
                },
            }
        } else {
            self
        }
    }

    /// The first connection in the queue has its turn. It goes to the end of
    /// the queue, and its requests are handed out; one that is gone just leaves
    /// the queue.
    pub open spec fn polled(self) -> Self {
        let id = self.readyqueue[0];
        let rest = self.readyqueue.subrange(1, self.readyqueue.len() as int);
        if self.trackers.has(id) {
            SchedulerState {
                trackers: self.trackers.set(
                    id,
                    TrackerState { data_requests: Seq::empty(), ..self.trackers.at(id) },
                ),
                readyqueue: rest.push(id),
            }
        } else {
            SchedulerState { readyqueue: rest, ..self }
        }
    }

    pub open spec fn polled_requests(self) -> Seq<DataRequest> {
        let id = self.readyqueue[0];
        if self.trackers.has(id) {
            self.trackers.at(id).data_requests
        } else {
            Seq::empty()
        }
    }
}

impl Scheduler {
    pub open spec fn wf(&self) -> bool {
        self.trackers.wf()
    }

    pub fn with_capacity(capacity: usize) -> (scheduler: Self)
        requires
            capacity <= slot_limit(),
        ensures
            scheduler.wf(),
            scheduler@.trackers == Slots::<TrackerState>::empty(),
            scheduler@.readyqueue == Seq::<ConnectionId>::empty(),
    {
        Scheduler { trackers: Arena::with_capacity(capacity), readyqueue: VecDeque::new() }
    }

    pub fn add(&mut self, tracker: Tracker) -> (id: ConnectionId)
        requires
            old(self).wf(),
            old(self)@.trackers.has_room(),
        ensures
            final(self).wf(),
            final(self)@ == old(self)@.add(tracker@),
            id == old(self)@.trackers.next_key(),
    {
        self.trackers.insert(tracker)
    }

    pub fn remove(&mut self, id: ConnectionId) -> (tracker: Tracker)
        requires
            old(self).wf(),
            old(self)@.trackers.has(id),
        ensures
            final(self).wf(),
            final(self)@ == old(self)@.remove(id),
            tracker@ == old(self)@.trackers.at(id),
    {
        self.trackers.remove(id)
    }

    /// Adds a request of a connection.
    pub fn track(&mut self, id: ConnectionId, request: DataRequest)
        requires
            old(self).wf(),
        ensures
            final(self).wf(),
            final(self)@ == old(self)@.track(id, request),
    {
        if self.trackers.contains(id) {
            self.trackers.at_mut(id).register_data_request(request);
        }
    }

    /// Adds requests of a connection.
    pub fn trackv(&mut self, id: ConnectionId, requests: VecDeque<DataRequest>)
        requires
            old(self).wf(),
        ensures
            final(self).wf(),
            final(self)@ == old(self)@.trackv(id, requests@),
    {
        if self.trackers.contains(id) {
            let mut requests = requests;
            self.trackers.at_mut(id).data_requests.append(&mut requests);
        }
    }

    /// Drops the requests of a connection for a filter.
    pub fn untrack(&mut self, id: ConnectionId, filter: &String)
        requires
            old(self).wf(),
        ensures
            final(self).wf(),
            final(self)@ == old(self)@.untrack(id, filter@),
    {
        if self.trackers.contains(id) {
            self.trackers.at_mut(id).unregister_data_request(filter);
        }
    }

    /// Queues a connection, where the reason is what it was paused for.
    pub fn reschedule(&mut self, id: ConnectionId, reason: ScheduleReason)
        requires
            old(self).wf(),
        ensures
            final(self).wf(),
            final(self)@ == old(self)@.reschedule(id, reason),
    {
        let ghost before = self@;
        if self.trackers.contains(id) {
            if self.trackers.at_mut(id).try_ready(reason) {
                self.readyqueue.push_back(id);
            } else {
                assert(self@.trackers.rows =~= before.trackers.rows);
            }
        }
    }

    /// Pauses a connection whose turn it is.
    pub fn pause(&mut self, id: ConnectionId, reason: PauseReason)
        requires
            old(self).wf(),
        ensures
            final(self).wf(),
            final(self)@ == old(self)@.pause(id, reason),
    {
        if self.trackers.contains(id) {
            self.trackers.at_mut(id).pause(reason);
            let len = self.readyqueue.len();
            if len > 0 && self.readyqueue[len - 1] == id {
                self.readyqueue.pop_back();
            }
        }
    }

    /// The connection whose turn it is, and its requests.
    pub fn poll(&mut self) -> (turn: Option<(ConnectionId, VecDeque<DataRequest>)>)
        requires
            old(self).wf(),
        ensures
            final(self).wf(),
            turn is None <==> old(self)@.readyqueue.len() == 0,
            turn is None ==> final(self)@ == old(self)@,
            turn matches Some(turn) ==> {
                &&& turn.0 == old(self)@.readyqueue[0]
                &&& turn.1@ == old(self)@.polled_requests()
                &&& final(self)@ == old(self)@.polled()
            },
    {
        match self.readyqueue.pop_front() {
            None => None,
            Some(id) => {
                let mut requests: VecDeque<DataRequest> = VecDeque::new();
                if self.trackers.contains(id) {
                    std::mem::swap(&mut self.trackers.at_mut(id).data_requests, &mut requests);
                    self.readyqueue.push_back(id);
                }
                Some((id, requests))
            },
        }
    }
}

/// A connection that is paused stays paused until what it is paused for is no
/// longer so: one whose outbox is full until its link is ready, or it begins; one
/// that owes acks until there is an ack; one that has read all until there is
/// something new to read, a new filter, or an ack. One that is ready stays so.
/// Nobody else is touched, and whoever is woken goes to the end of the queue.
pub proof fn law_pause_ends_for_its_reason(
    scheduler: SchedulerState,
    id: ConnectionId,
    reason: ScheduleReason,
    other: ConnectionId,
)
    requires
        scheduler.trackers.has(id),
        scheduler.trackers.has(other),
    ensures
        ({
            let before = scheduler.trackers.at(id);
            let after = scheduler.reschedule(id, reason);
            let tracker = after.trackers.at(id);
            let woken = match before.status {
                Status::Ready => false,
                Status::Paused(PauseReason::Busy) => reason == ScheduleReason::Ready || reason
                    == ScheduleReason::Init,
                Status::Paused(PauseReason::InflightFull) => reason
                    == ScheduleReason::IncomingAck,
                Status::Paused(PauseReason::Caughtup) => reason == ScheduleReason::FreshData
                    || reason == ScheduleReason::NewFilter || reason
                    == ScheduleReason::IncomingAck,
            };
            &&& woken ==> tracker.status is Ready && after.readyqueue
                == scheduler.readyqueue.push(id)
            &&& !woken ==> after == scheduler
            &&& tracker.data_requests == before.data_requests
            &&& tracker.id == before.id
            &&& other != id ==> after.trackers.at(other) == scheduler.trackers.at(other)
        }),
{
}

} // verus!
