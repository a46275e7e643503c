//! How acks and publishes get to a client.
use super::alertlog::{append_to_alertlog, Alert, AlertError, AlertLog, AlertLogState, AlertView};
use super::datalog::{deliverable, span, DataLog, DataLogState};
use super::iobufs::{Outgoing, OutgoingState};
use super::logs::{AckLog, AckLogState};
use super::messages::{
    AckView, DataRequest, Forward, Notification, NotificationView, ShadowReply, ShadowRequest,
    MAX_CHANNEL_CAPACITY,
};
use crate::protocol::{qos, spec_qos, Publish};
use crate::segments::log::{Offset, Position};
use crate::text;
use crate::views::{group_views, views};
use std::collections::VecDeque;
use std::time::Instant;
use vstd::prelude::*;

verus! {

broadcast use group_views;

pub open spec fn device_acks(acks: Seq<AckView>) -> Seq<NotificationView> {
    Seq::new(acks.len(), |i: int| NotificationView::DeviceAck(acks[i]))
}

/// The outbox with acks added to it.
pub open spec fn with_acks(outgoing: OutgoingState, acks: Seq<AckView>) -> OutgoingState {
    if acks.len() == 0 {
        outgoing
    } else {
        OutgoingState { buffer: outgoing.buffer + device_acks(acks), ..outgoing }.wake()
    }
}

/// Moves all acks that are pending to the outbox. Says whether there were any.
pub fn ack_device_data(ackslog: &mut AckLog, outgoing: &mut Outgoing) -> (any: bool)
    ensures
        any == (old(ackslog)@.committed.len() > 0),
        final(ackslog)@ == (AckLogState { committed: Seq::empty(), ..old(ackslog)@ }),
        final(outgoing)@ == with_acks(old(outgoing)@, old(ackslog)@.committed),
{
    let ghost before = outgoing@;
    let mut acks = ackslog.readv();
    let ghost all = views(acks@);
    if acks.len() == 0 {
        return false;
    }
    let ghost mut done: int = 0;
    assert(all.skip(0) =~= all);
    assert(before.buffer + device_acks(all.take(0)) =~= before.buffer);
    while acks.len() > 0
        invariant
            0 <= done <= all.len(),
            views(acks@) == all.skip(done),
            outgoing@ == (OutgoingState {
                buffer: before.buffer + device_acks(all.take(done)),
                ..before
            }),
        decreases acks.len(),
    {
        let ghost rest = acks@;
        assert(views(rest).len() == all.len() - done);
        let ack = acks.pop_front().unwrap();
        outgoing.push_notification(Notification::DeviceAck(ack));
        proof {
            assert(views(rest)[0] == ack@);
            assert(views(acks@) =~= all.skip(done).skip(1));
            assert(all.skip(done).skip(1) =~= all.skip(done + 1));
            assert((before.buffer + device_acks(all.take(done))).push(
                NotificationView::DeviceAck(ack@),
            ) =~= before.buffer + device_acks(all.take(done + 1)));
            done = done + 1;
        }
    }
    assert(all.take(done) =~= all);
    outgoing.wake();
    true
}

#[derive(Debug, Clone, Copy, PartialEq, Eq, Structural)]
pub enum ConsumeStatus {
    /// The outbox holds as much as it may.
    BufferFull,
    /// As much as may be is not acked.
    InflightFull,
    /// All publishes of the filter were forwarded.
    FilterCaughtup,
    /// Some publishes of the filter were forwarded.
    PartialRead,
}

/// A place in a log, as text.
pub open spec fn offset_text(offset: Offset) -> Seq<char> {
    "("@ + text::digits(offset.0 as nat) + ", "@ + text::digits(offset.1 as nat) + ")"@
}

fn show_offset(offset: Offset) -> (out: String)
    ensures
        out@ == offset_text(offset),
{
    let mut out = text::join("(", text::decimal(offset.0 as u128).as_str());
    out.append(", ");
    out.append(text::decimal(offset.1 as u128).as_str());
    out.append(")");
    out
}

/// What is said of a reader that has lost publishes.
pub open spec fn jump_text(cursor: Offset, start: Offset, filter: Seq<char>) -> Seq<char> {
    "Read cursor start jumped from "@ + offset_text(cursor) + " to "@ + offset_text(start)
        + " on "@ + filter
}

fn show_jump(cursor: Offset, start: Offset, filter: &String) -> (out: String)
    ensures
        out@ == jump_text(cursor, start, filter@),
{
    let mut out = text::join("Read cursor start jumped from ", show_offset(cursor).as_str());
    out.append(" to ");
    out.append(show_offset(start).as_str());
    out.append(" on ");
    out.append(filter.as_str());
    out
}

/// What becomes of a request that is served.
#[verifier::ext_equal]
pub struct Served {
    pub request: DataRequest,
    pub outgoing: OutgoingState,
    pub alertlog: AlertLogState,
    pub status: ConsumeStatus,
}

/// A publish as it is forwarded: at the quality of service of the subscription.
pub open spec fn forward(read: (Publish, Offset), level: u8) -> Forward {
    Forward {
        cursor: read.1,
        size: 0,
        publish: Publish { qos: spec_qos(level)->0, ..read.0 },
    }
}

pub open spec fn forwards(read: Seq<(Publish, Offset)>, level: u8) -> Seq<Forward> {
    Seq::new(read.len(), |i: int| forward(read[i], level))
}

/// How many publishes may be forwarded at once for a request.
pub open spec fn read_len(
    request: DataRequest,
    datalog: DataLogState,
    outgoing: OutgoingState,
) -> u64 {
    if request.qos == 1 {
        outgoing.free_slots() as u64
    } else {
        datalog.config.max_read_len
    }
}

/// A request after a read.
pub open spec fn advanced(request: DataRequest, position: Position, count: nat) -> DataRequest {
    DataRequest {
        read_count: request.read_count.wrapping_add(count as usize),
        cursor: position_end(position),
        ..request
    }
}

pub open spec fn position_start(position: Position) -> Offset {
    match position {
        Position::Next { start, end: _ } => start,
        Position::Done { start, end: _ } => start,
    }
}

pub open spec fn position_end(position: Position) -> Offset {
    match position {
        Position::Next { start: _, end } => end,
        Position::Done { start: _, end } => end,
    }
}

/// What a read says of a filter: whether anything of it is left.
pub open spec fn read_status(position: Position) -> ConsumeStatus {
    match position {
        Position::Next { start: _, end: _ } => ConsumeStatus::PartialRead,
        Position::Done { start: _, end: _ } => ConsumeStatus::FilterCaughtup,
    }
}

/// A request is served: the log of its filter is read from its cursor on, and
/// what was read and has not expired goes to the outbox. Where publishes were
/// lost there is an alert.
pub open spec fn serve(
    request: DataRequest,
    datalog: DataLogState,
    outgoing: OutgoingState,
    alertlog: AlertLogState,
    now: Instant,
) -> Served {
    if request.qos == 1 && outgoing.free_slots() == 0 {
        Served { request, outgoing, alertlog, status: ConsumeStatus::InflightFull }
    } else if request.filter_idx >= datalog.native.len() {
        Served { request, outgoing, alertlog, status: ConsumeStatus::FilterCaughtup }
    } else {
        let log = datalog.native[request.filter_idx as int].log;
        let len = span(log, request.cursor, read_len(request, datalog, outgoing), now);
        let position = log.read_position(request.cursor, len);
        let read = deliverable(log.read(request.cursor, len), now);
        let start = position_start(position);
        let alerted = if start != request.cursor {
            alertlog.append(
                AlertView::CursorJump(
                    outgoing.client_id,
                    jump_text(request.cursor, start, request.filter@),
                ),
            )
        } else {
            alertlog
        };
        let request = advanced(request, position, read.len());
        if read.len() == 0 {
            Served {
                request,
                outgoing,
                alertlog: alerted,
                status: read_status(position),
            }
        } else {
            let filled = outgoing.push_forwards(
                forwards(read, request.qos),
                request.qos,
                request.filter_idx,
            );
            if filled.buffer.len() >= MAX_CHANNEL_CAPACITY - 1 {
                Served {
                    request,
                    outgoing: filled.notify(NotificationView::Unschedule).wake(),
                    alertlog: alerted,
                    status: ConsumeStatus::BufferFull,
                }
            } else {
                Served {
                    request,
                    outgoing: filled.wake(),
                    alertlog: alerted,
                    status: read_status(position),
                }
            }
        }
    }
}

/// Reads the log of a request from its cursor on and moves what was read to the
/// outbox.
pub fn forward_device_data(
    request: &mut DataRequest,
    datalog: &DataLog,
    outgoing: &mut Outgoing,
    alertlog: &mut AlertLog,
    now: Instant,
) -> (status: ConsumeStatus)
    requires
        datalog.wf(),
        old(alertlog).wf(),
        old(request).qos <= 2,
    ensures
        final(alertlog).wf(),
        (Served {
            request: *final(request),
            outgoing: final(outgoing)@,
            alertlog: final(alertlog)@,
            status,
        }) == serve(*old(request), datalog@, old(outgoing)@, old(alertlog)@, now),
{
    let inflight_slots: u64 = if request.qos == 1 {
        let len = outgoing.free_slots();
        if len == 0 {
            return ConsumeStatus::InflightFull;
        }
        len as u64
    } else {
        datalog.config.max_read_len
    };
    let (position, publishes) = match datalog.native_readv(
        request.filter_idx,
        request.cursor,
        inflight_slots,
        now,
    ) {
        Some(read) => read,
        None => {
            return ConsumeStatus::FilterCaughtup;
        },
    };
    let (start, next, caughtup) = match position {
        Position::Next { start, end } => (start, end, false),
        Position::Done { start, end } => (start, end, true),
    };
    if start.0 != request.cursor.0 || start.1 != request.cursor.1 {
        let error = show_jump(request.cursor, start, &request.filter);
        let alert = Alert::error(outgoing.client_id.clone(), AlertError::CursorJump(error));
        let _offset = append_to_alertlog(alert, alertlog);
    } else {
        assert(start == request.cursor);
    }
    request.read_count = request.read_count.wrapping_add(publishes.len());
    request.cursor = next;
    let status = if caughtup {
        ConsumeStatus::FilterCaughtup
    } else {
        ConsumeStatus::PartialRead
    };
    if publishes.len() == 0 {
        return status;
    }
    let level = request.qos;
    let mut ready: VecDeque<Forward> = VecDeque::new();
    let mut i: usize = 0;
    while i < publishes.len()
        invariant
            i <= publishes.len(),
            level <= 2,
            ready@ == forwards(publishes@, level).take(i as int),
        decreases publishes.len() - i,
    {
        let mut publish = publishes[i].0.clone();
        publish.qos = qos(level).unwrap();
        ready.push_back(Forward { cursor: publishes[i].1, size: 0, publish });
        i = i + 1;
        assert(ready@ =~= forwards(publishes@, level).take(i as int));
    }
    assert(ready@ =~= forwards(publishes@, level));
    let (len, _inflight) = outgoing.push_forwards(ready, level, request.filter_idx);
    if len >= MAX_CHANNEL_CAPACITY - 1 {
        outgoing.push_notification(Notification::Unschedule);
        outgoing.wake();
        return ConsumeStatus::BufferFull;
    }
    outgoing.wake();
    status
}

/// The outbox after a request for the last publish of a filter.
pub open spec fn with_shadow(
    datalog: DataLogState,
    outgoing: OutgoingState,
    filter: Seq<char>,
) -> OutgoingState {
    match datalog.shadow(filter) {
        None => outgoing,
        Some(publish) => {
            let filled = outgoing.notify(
                NotificationView::Shadow(
                    ShadowReply { topic: publish.topic, payload: publish.payload },
                ),
            );
            if filled.buffer.len() >= MAX_CHANNEL_CAPACITY - 1 {
                filled.notify(NotificationView::Unschedule).wake()
            } else {
                filled.wake()
            }
        },
    }
}

/// Answers a request for the last publish of a filter.
pub fn retrieve_shadow(datalog: &DataLog, outgoing: &mut Outgoing, shadow: ShadowRequest)
    requires
        datalog.wf(),
    ensures
        final(outgoing)@ == with_shadow(datalog@, old(outgoing)@, shadow.filter@),
{
    if let Some(publish) = datalog.shadow(&shadow.filter) {
        let reply = ShadowReply { topic: publish.topic, payload: publish.payload };
        let len = outgoing.push_notification(Notification::Shadow(reply));
        if len >= MAX_CHANNEL_CAPACITY - 1 {
            outgoing.push_notification(Notification::Unschedule);
        }
        outgoing.wake();
    }
}

} // verus!
