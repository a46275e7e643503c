//! The publishes of every filter, and the retained ones.
use super::iobufs::{capped_size, publish_weight};
use super::logs::{
    ensure_filter, find_filter, find_log, lemma_find_log, log_index, logs_wf, matching,
    matching_filters, requests_of, with_filter, FilterLog, FilterLogState,
};
use super::messages::{ConnectionId, DataRequest, RouterConfig, SubscriptionMeter};
use crate::clock::{instant_secs_since, secs_between};
use crate::protocol::{Publish, PublishProperties};
use crate::segments::log::{view_entries, Entry, LogState, Offset, Position};
use crate::segments::utils::Storage;
use crate::topic::topic_matches;
use crate::views::{group_views, views};
use std::collections::VecDeque;
use std::time::Instant;
use vstd::prelude::*;

verus! {

broadcast use group_views;

/// When a publish is no longer worth delivering: so many seconds after it came
/// in.
#[derive(Debug, Clone, Copy)]
pub struct Expiry {
    pub since: Instant,
    pub secs: u32,
}

/// A publish in the log of a filter.
#[derive(Debug)]
pub struct LogEntry {
    pub publish: Publish,
    pub expiry: Option<Expiry>,
}

impl LogEntry {
    pub open spec fn spec_expired(self, now: Instant) -> bool {
        match self.expiry {
            Some(expiry) => secs_between(expiry.since, now) >= expiry.secs,
            None => false,
        }
    }

    pub fn expired(&self, now: Instant) -> (expired: bool)
        ensures
            expired == self.spec_expired(now),
    {
        match self.expiry {
            Some(expiry) => instant_secs_since(now, expiry.since) >= (expiry.secs as u64),
            None => false,
        }
    }
}

impl View for LogEntry {
    type V = LogEntry;

    open spec fn view(&self) -> LogEntry {
        *self
    }
}

impl Storage for LogEntry {
    open spec fn spec_size(&self) -> nat {
        capped_size(self.publish) as nat
    }

    fn size(&self) -> (size: usize) {
        publish_weight(&self.publish)
    }
}

impl Entry for LogEntry {
    open spec fn weight(v: LogEntry) -> nat {
        capped_size(v.publish) as nat
    }

    proof fn lemma_weight(&self) {
    }

    fn copy(&self) -> (copy: Self) {
        LogEntry { publish: self.publish.clone(), expiry: self.expiry }
    }
}

/// The last publish on a topic that is to be kept for later subscribers.
#[derive(Debug)]
pub struct Retained {
    pub topic: String,
    pub publish: Publish,
    pub props: Option<PublishProperties>,
}

#[verifier::ext_equal]
pub struct RetainedView {
    pub topic: Seq<char>,
    pub publish: Publish,
    pub props: Option<PublishProperties>,
}

impl View for Retained {
    type V = RetainedView;

    open spec fn view(&self) -> RetainedView {
        RetainedView { topic: self.topic@, publish: self.publish, props: self.props }
    }
}

pub struct DataLog {
    pub config: RouterConfig,
    pub native: Vec<FilterLog<LogEntry>>,
    /// In the order in which they were retained.
    pub retained: Vec<Retained>,
}

#[verifier::ext_equal]
pub struct DataLogState {
    pub config: RouterConfig,
    pub native: Seq<FilterLogState<LogEntry>>,
    pub retained: Seq<RetainedView>,
}

impl View for DataLog {
    type V = DataLogState;

    open spec fn view(&self) -> DataLogState {
        DataLogState {
            config: self.config,
            native: views(self.native@),
            retained: views(self.retained@),
        }
    }
}

/// The retained publishes without the one on a topic.
pub open spec fn retained_without(retained: Seq<RetainedView>, topic: Seq<char>) -> Seq<
    RetainedView,
>
    decreases retained.len(),
{
    if retained.len() == 0 {
        Seq::empty()
    } else {
        let before = retained_without(retained.drop_last(), topic);
        if retained.last().topic == topic {
            before
        } else {
            before.push(retained.last())
        }
    }
}

/// What goes to the log at a position when a filter is subscribed to: the
/// retained publishes that the filter selects.
pub open spec fn replayed(retained: Seq<RetainedView>, filter: Seq<char>, idx: usize) -> Seq<
    (usize, LogEntry),
>
    decreases retained.len(),
{
    if retained.len() == 0 {
        Seq::empty()
    } else {
        let before = replayed(retained.drop_last(), filter, idx);
        if topic_matches(retained.last().topic, filter) {
            before.push((idx, LogEntry { publish: retained.last().publish, expiry: None }))
        } else {
            before
        }
    }
}

/// One entry for the logs at several positions.
pub open spec fn spread(idxs: Seq<usize>, entry: LogEntry) -> Seq<(usize, LogEntry)> {
    Seq::new(idxs.len(), |k: int| (idxs[k], entry))
}

/// The publishes among entries that were read, without those that have expired.
pub open spec fn deliverable(read: Seq<(LogEntry, Offset)>, now: Instant) -> Seq<(Publish, Offset)>
    decreases read.len(),
{
    if read.len() == 0 {
        Seq::empty()
    } else {
        let before = deliverable(read.drop_last(), now);
        if read.last().0.spec_expired(now) {
            before
        } else {
            before.push((read.last().0.publish, read.last().1))
        }
    }
}

/// How many entries have to be looked at to find some that have not expired: no
/// more than hold that many, and all where there are fewer.
pub open spec fn reach(read: Seq<(LogEntry, Offset)>, len: nat, now: Instant) -> nat
    decreases read.len(),
{
    if read.len() == 0 || len == 0 {
        0
    } else if read[0].0.spec_expired(now) {
        1 + reach(read.skip(1), len, now)
    } else {
        1 + reach(read.skip(1), (len - 1) as nat, now)
    }
}

/// How many entries of a log are read from a cursor on to find some that have
/// not expired.
pub open spec fn span(log: LogState<LogEntry>, cursor: Offset, len: u64, now: Instant) -> u64 {
    reach(log.read(cursor, u64::MAX), len as nat, now) as u64
}

proof fn lemma_reach_bounds(read: Seq<(LogEntry, Offset)>, len: nat, now: Instant)
    ensures
        reach(read, len, now) <= read.len(),
        reach(read, len, now) >= len || reach(read, len, now) == read.len(),
    decreases read.len(),
{
    if read.len() > 0 && len > 0 {
        lemma_reach_bounds(read.skip(1), len, now);
        lemma_reach_bounds(read.skip(1), (len - 1) as nat, now);
    }
}

/// What is left to be looked at after some entries were.
proof fn lemma_reach_prefix(read: Seq<(LogEntry, Offset)>, len: nat, now: Instant, c: nat)
    requires
        c <= reach(read, len, now),
    ensures
        c <= read.len(),
        deliverable(read.take(c as int), now).len() <= len,
        reach(read, len, now) == c + reach(
            read.skip(c as int),
            (len - deliverable(read.take(c as int), now).len()) as nat,
            now,
        ),
    decreases c,
{
    lemma_reach_bounds(read, len, now);
    if c == 0 {
        assert(read.skip(0) =~= read);
        assert(read.take(0) =~= Seq::<(LogEntry, Offset)>::empty());
    } else {
        lemma_reach_prefix(read, len, now, (c - 1) as nat);
        let rest = read.skip(c - 1);
        assert(rest.skip(1) =~= read.skip(c as int));
        assert(read.take(c as int).drop_last() =~= read.take(c - 1));
        assert(read.take(c as int).last() == rest[0]);
    }
}

/// A read finds as many entries as it may, or all there are.
pub proof fn lemma_span(log: LogState<LogEntry>, cursor: Offset, len: u64, now: Instant)
    requires
        log.wf(),
    ensures
        ({
            let n = span(log, cursor, len, now);
            let found = deliverable(log.read(cursor, n), now);
            &&& n <= log.end() - log.first_read(cursor)
            &&& log.read_count(cursor, n) == n
            &&& log.read(cursor, n) == log.read(cursor, u64::MAX).take(n as int)
            &&& found.len() <= len
            &&& found.len() == len || log.read_position(cursor, n) is Done
        }),
{
    log.lemma_begin_end();
    let all = log.read(cursor, u64::MAX);
    lemma_reach_bounds(all, len as nat, now);
    let n = reach(all, len as nat, now);
    lemma_reach_prefix(all, len as nat, now, n);
    assert(log.read(cursor, n as u64) =~= all.take(n as int));
}

pub proof fn lemma_deliverable_add(
    a: Seq<(LogEntry, Offset)>,
    b: Seq<(LogEntry, Offset)>,
    now: Instant,
)
    ensures
        deliverable(a + b, now) == deliverable(a, now) + deliverable(b, now),
    decreases b.len(),
{
    if b.len() == 0 {
        assert(a + b =~= a);
    } else {
        lemma_deliverable_add(a, b.drop_last(), now);
        assert((a + b).drop_last() =~= a + b.drop_last());
    }
    assert(deliverable(a + b, now) =~= deliverable(a, now) + deliverable(b, now));
}

/// Adds the publishes that have not expired.
fn push_deliverable(out: &mut Vec<(Publish, Offset)>, read: &Vec<(LogEntry, Offset)>, now: Instant)
    ensures
        final(out)@ == old(out)@ + deliverable(view_entries(read@), now),
{
    let ghost before = out@;
    let ghost all = view_entries(read@);
    let mut i: usize = 0;
    assert(all.take(0) =~= Seq::<(LogEntry, Offset)>::empty());
    assert(before + deliverable(all.take(0), now) =~= before);
    while i < read.len()
        invariant
            i <= read.len(),
            all == view_entries(read@),
            out@ == before + deliverable(all.take(i as int), now),
        decreases read.len() - i,
    {
        proof {
            assert(all.take(i + 1).drop_last() =~= all.take(i as int));
        }
        if !read[i].0.expired(now) {
            out.push((read[i].0.publish.clone(), read[i].1));
        }
        assert(out@ =~= before + deliverable(all.take(i + 1), now));
        i = i + 1;
    }
    assert(all.take(i as int) =~= all);
}

/// What a connection waits for in any of the logs.
pub open spec fn parked(native: Seq<FilterLogState<LogEntry>>, id: ConnectionId) -> Seq<DataRequest>
    decreases native.len(),
{
    if native.len() == 0 {
        Seq::empty()
    } else {
        parked(native.drop_last(), id) + requests_of(native.last().waiters, id)
    }
}

impl DataLogState {
    pub open spec fn new(config: RouterConfig) -> Self {
        DataLogState { config, native: Seq::empty(), retained: Seq::empty() }
    }

    pub open spec fn wf(self) -> bool {
        &&& self.config.valid()
        &&& logs_wf(self.native)
    }

    /// The logs with one for a filter.
    pub open spec fn ensure_log(self, filter: Seq<char>) -> Self {
        DataLogState { native: with_filter(self.native, filter, self.config), ..self }
    }

    /// The place just behind the last publish of a filter.
    pub open spec fn next_offset(self, filter: Seq<char>) -> Offset {
        self.ensure_log(filter).native[log_index(self.native, filter) as int].log.next_offset()
    }

    pub open spec fn with_log(self, idx: usize, log: FilterLogState<LogEntry>) -> Self {
        DataLogState { native: self.native.update(idx as int, log), ..self }
    }

    /// One more entry in a log. Nobody waits for it any more.
    pub open spec fn append(self, idx: usize, entry: LogEntry) -> Self {
        self.with_log(
            idx,
            self.native[idx as int].append(entry, LogEntry::weight(entry)).drained(),
        )
    }

    pub open spec fn append_items(self, items: Seq<(usize, LogEntry)>) -> Self
        decreases items.len(),
    {
        if items.len() == 0 {
            self
        } else {
            self.append_items(items.drop_last()).append(items.last().0, items.last().1)
        }
    }

    /// Those who waited for one of the entries.
    pub open spec fn woken(self, items: Seq<(usize, LogEntry)>) -> Seq<(ConnectionId, DataRequest)>
        decreases items.len(),
    {
        if items.len() == 0 {
            Seq::empty()
        } else {
            self.woken(items.drop_last()) + self.append_items(
                items.drop_last(),
            ).native[items.last().0 as int].waiters
        }
    }

    /// The place just behind the last of the entries, or the origin.
    pub open spec fn last_offset(self, items: Seq<(usize, LogEntry)>) -> Offset {
        if items.len() == 0 {
            (0, 0)
        } else {
            self.append_items(items).native[items.last().0 as int].log.next_offset()
        }
    }

    pub open spec fn forget(self, topic: Seq<char>) -> Self {
        DataLogState { retained: retained_without(self.retained, topic), ..self }
    }

    pub open spec fn retain(
        self,
        topic: Seq<char>,
        publish: Publish,
        props: Option<PublishProperties>,
    ) -> Self {
        DataLogState {
            retained: retained_without(self.retained, topic).push(
                RetainedView { topic, publish, props },
            ),
            ..self
        }
    }

    /// What a subscription to a filter puts into the log of the filter.
    pub open spec fn replay_items(self, filter: Seq<char>) -> Seq<(usize, LogEntry)> {
        match find_log(self.native, filter) {
            Some(idx) => replayed(self.retained, filter, idx),
            None => Seq::empty(),
        }
    }

    pub open spec fn park(self, id: ConnectionId, request: DataRequest) -> Self {
        if request.filter_idx < self.native.len() {
            self.with_log(
                request.filter_idx,
                self.native[request.filter_idx as int].park(id, request),
            )
        } else {
            self
        }
    }

    /// The logs, in which a connection waits for nothing.
    pub open spec fn clean(self, id: ConnectionId) -> Self {
        DataLogState {
            native: Seq::new(self.native.len(), |i: int| self.native[i].without(id)),
            ..self
        }
    }

    /// The logs, in which a connection does not wait for a filter.
    pub open spec fn remove_waiter(self, id: ConnectionId, filter: Seq<char>) -> Self {
        match find_log(self.native, filter) {
            Some(idx) => self.with_log(idx, self.native[idx as int].without(id)),
            None => self,
        }
    }

    pub open spec fn meter(self, filter: Seq<char>) -> Option<SubscriptionMeter> {
        match find_log(self.native, filter) {
            Some(idx) => Some(self.native[idx as int].meter),
            None => None,
        }
    }

    pub open spec fn waiters(self, filter: Seq<char>) -> Option<Seq<(ConnectionId, DataRequest)>> {
        match find_log(self.native, filter) {
            Some(idx) => Some(self.native[idx as int].waiters),
            None => None,
        }
    }

    /// The last publish of a filter.
    pub open spec fn shadow(self, filter: Seq<char>) -> Option<Publish> {
        match find_log(self.native, filter) {
            Some(idx) => match self.native[idx as int].log.last_entry() {
                Some(entry) => Some(entry.publish),
                None => None,
            },
            None => None,
        }
    }

    pub proof fn lemma_append(self, idx: usize, entry: LogEntry)
        requires
            self.wf(),
            idx < self.native.len(),
        ensures
            self.append(idx, entry).wf(),
            self.append(idx, entry).native.len() == self.native.len(),
    {
        self.native[idx as int].log.lemma_append(entry, LogEntry::weight(entry));
    }

    pub proof fn lemma_append_items(self, items: Seq<(usize, LogEntry)>)
        requires
            self.wf(),
            forall|k: int| 0 <= k < items.len() ==> (#[trigger] items[k]).0 < self.native.len(),
        ensures
            self.append_items(items).wf(),
            self.append_items(items).native.len() == self.native.len(),
            self.append_items(items).retained == self.retained,
            self.append_items(items).config == self.config,
        decreases items.len(),
    {
        if items.len() > 0 {
            let before = items.drop_last();
            assert forall|k: int| 0 <= k < before.len() implies (#[trigger] before[k]).0
                < self.native.len() by {
                assert(before[k] == items[k]);
            }
            self.lemma_append_items(before);
            self.append_items(before).lemma_append(items.last().0, items.last().1);
        }
    }
}

impl DataLog {
    pub open spec fn wf(&self) -> bool {
        self@.wf()
    }

    pub fn new(config: RouterConfig) -> (log: Self)
        requires
            config.valid(),
        ensures
            log.wf(),
            log@ == DataLogState::new(config),
    {
        DataLog { config, native: Vec::new(), retained: Vec::new() }
    }

    /// The logs whose filters select a topic, where there are any.
    pub fn matches(&self, topic: &str) -> (found: Option<Vec<usize>>)
        ensures
            match found {
                Some(idxs) => idxs@ == matching(self@.native, topic@) && idxs@.len() > 0,
                None => matching(self@.native, topic@).len() == 0,
            },
    {
        let found = matching_filters(&self.native, topic);
        if found.len() == 0 {
            None
        } else {
            Some(found)
        }
    }

    /// The log of a filter, which is begun where there is none, and the place
    /// just behind its last publish.
    pub fn next_native_offset(&mut self, filter: &str) -> (out: (usize, Offset))
        requires
            old(self).wf(),
        ensures
            final(self).wf(),
            final(self)@ == old(self)@.ensure_log(filter@),
            out.0 == log_index(old(self)@.native, filter@),
            out.0 < final(self)@.native.len(),
            final(self)@.native[out.0 as int].filter == filter@,
            out.1 == old(self)@.next_offset(filter@),
    {
        let idx = ensure_filter(&mut self.native, filter, &self.config);
        assert(self@.native[idx as int] == self.native@[idx as int]@);
        (idx, self.native[idx].log.next_offset())
    }

    /// Adds an entry to a log, and those who wait for it to the ones that are
    /// to be told.
    pub fn append(
        &mut self,
        idx: usize,
        entry: LogEntry,
        notifications: &mut VecDeque<(ConnectionId, DataRequest)>,
    ) -> (offset: Offset)
        requires
            old(self).wf(),
            idx < old(self)@.native.len(),
        ensures
            final(self).wf(),
            final(self)@ == old(self)@.append(idx, entry),
            final(notifications)@ == old(notifications)@ + old(self)@.native[idx as int].waiters,
            offset == final(self)@.native[idx as int].log.next_offset(),
    {
        proof {
            self@.lemma_append(idx, entry);
        }
        let offset = self.native[idx].append(entry);
        let mut waiters: VecDeque<(ConnectionId, DataRequest)> = VecDeque::new();
        std::mem::swap(&mut self.native[idx].waiters, &mut waiters);
        notifications.append(&mut waiters);
        assert(self@.native =~= old(self)@.append(idx, entry).native);
        offset
    }

    /// Reads a log from a cursor on until `len` publishes that have not expired
    /// are found, or all there are. Nothing comes back where there is no such
    /// log.
    pub fn native_readv(&self, idx: usize, cursor: Offset, len: u64, now: Instant) -> (out: Option<
        (Position, Vec<(Publish, Offset)>),
    >)
        requires
            self.wf(),
        ensures
            out is Some == (idx < self@.native.len()),
            out matches Some(out) ==> {
                let log = self@.native[idx as int].log;
                let n = span(log, cursor, len, now);
                &&& out.0 == log.read_position(cursor, n)
                &&& out.1@ == deliverable(log.read(cursor, n), now)
            },
    {
        if idx >= self.native.len() {
            return None;
        }
        assert(self@.native[idx as int] == self.native@[idx as int]@);
        let ghost log = self@.native[idx as int].log;
        let ghost all = log.read(cursor, u64::MAX);
        let ghost first = log.first_read(cursor);
        let ghost looked = log.read_count(cursor, len) as nat;
        let mut out: Vec<(Publish, Offset)> = Vec::new();
        let (position, read) = self.native[idx].log.readv(cursor, len);
        push_deliverable(&mut out, &read, now);
        let (start, mut end, mut caughtup) = match position {
            Position::Next { start, end } => (start, end, false),
            Position::Done { start, end } => (start, end, true),
        };
        proof {
            log.lemma_begin_end();
            lemma_reach_bounds(all, len as nat, now);
            lemma_reach_prefix(all, len as nat, now, looked);
            assert(log.read(cursor, len) =~= all.take(looked as int));
            assert(out@ =~= deliverable(all.take(looked as int), now));
        }
        while !caughtup && (out.len() as u64) < len
            invariant
                idx < self.native.len(),
                log == self.native@[idx as int]@.log,
                log.wf(),
                all == log.read(cursor, u64::MAX),
                first == log.first_read(cursor),
                log.begin() <= first <= log.end() <= u64::MAX,
                all.len() == log.end() - first,
                looked <= reach(all, len as nat, now),
                looked <= all.len(),
                out@ == deliverable(all.take(looked as int), now),
                out@.len() <= len,
                start == log.read_start(cursor),
                end == log.place(first + looked),
                caughtup == (first + looked == log.end()),
            decreases all.len() - looked,
        {
            proof {
                log.lemma_read_from(first + looked);
                lemma_reach_prefix(all, len as nat, now, looked);
            }
            let want: u64 = len - (out.len() as u64);
            let ghost from = end;
            let (position, read) = self.native[idx].log.readv(end, want);
            push_deliverable(&mut out, &read, now);
            match position {
                Position::Next { start: _, end: stop } => {
                    end = stop;
                },
                Position::Done { start: _, end: stop } => {
                    end = stop;
                    caughtup = true;
                },
            }
            proof {
                let more = log.read_count(from, want) as nat;
                let seen = all.take(looked as int);
                let fresh = log.read(from, want);
                assert(all.take((looked + more) as int) =~= seen + fresh);
                lemma_deliverable_add(seen, fresh, now);
                lemma_reach_bounds(all.skip(looked as int), want as nat, now);
                looked = looked + more;
                lemma_reach_prefix(all, len as nat, now, looked);
            }
        }
        proof {
            lemma_reach_prefix(all, len as nat, now, looked);
            lemma_reach_bounds(all.skip(looked as int), (len - out@.len()) as nat, now);
            assert(reach(all, len as nat, now) == looked);
            lemma_span(log, cursor, len, now);
        }
        if caughtup {
            Some((Position::Done { start, end }, out))
        } else {
            Some((Position::Next { start, end }, out))
        }
    }

    /// Puts a request aside until there is more in its log.
    pub fn park(&mut self, id: ConnectionId, request: DataRequest)
        requires
            old(self).wf(),
        ensures
            final(self).wf(),
            final(self)@ == old(self)@.park(id, request),
    {
        let idx = request.filter_idx;
        if idx < self.native.len() {
            self.native[idx].waiters.push_back((id, request));
            assert(self@ =~= old(self)@.park(id, request));
        }
    }

    /// Takes out all that a connection waits for.
    pub fn clean(&mut self, id: ConnectionId) -> (requests: Vec<DataRequest>)
        requires
            old(self).wf(),
        ensures
            final(self).wf(),
            final(self)@ == old(self)@.clean(id),
            requests@ == parked(old(self)@.native, id),
    {
        let ghost before = self@;
        let mut requests: Vec<DataRequest> = Vec::new();
        let mut i: usize = 0;
        assert(before.native.take(0) =~= Seq::<FilterLogState<LogEntry>>::empty());
        while i < self.native.len()
            invariant
                i <= before.native.len(),
                self@.native.len() == before.native.len(),
                self.native@.len() == before.native.len(),
                self@.config == before.config,
                self@.retained == before.retained,
                forall|j: int|
                    0 <= j < i ==> (#[trigger] self@.native[j]) == before.native[j].without(id),
                forall|j: int|
                    i <= j < before.native.len() ==> (#[trigger] self@.native[j])
                        == before.native[j],
                requests@ == parked(before.native.take(i as int), id),
            decreases before.native.len() - i,
        {
            proof {
                assert(before.native.take(i + 1).drop_last() =~= before.native.take(i as int));
                assert(self@.native[i as int] == self.native@[i as int]@);
            }
            let mut found = self.native[i].remove_waiter(id);
            requests.append(&mut found);
            i = i + 1;
        }
        proof {
            assert(before.native.take(i as int) =~= before.native);
            assert(self@.native =~= before.clean(id).native);
            assert forall|i: int| 0 <= i < self@.native.len() implies (#[trigger] self@.native[i]).log.wf() by {
                assert(before.native[i].log.wf());
            }
        }
        requests
    }

    /// Takes out what a connection waits for under a filter.
    pub fn remove_waiters_for_id(&mut self, id: ConnectionId, filter: &String)
        requires
            old(self).wf(),
        ensures
            final(self).wf(),
            final(self)@ == old(self)@.remove_waiter(id, filter@),
    {
        proof {
            lemma_find_log(self@.native, filter@);
        }
        match find_filter(&self.native, filter) {
            Some(idx) => {
                self.native[idx].remove_waiter(id);
                assert(self@ =~= old(self)@.remove_waiter(id, filter@));
            },
            None => {},
        }
    }

    pub fn remove_from_retained_publishes(&mut self, topic: &String)
        ensures
            final(self)@ == old(self)@.forget(topic@),
    {
        let ghost all = self@.retained;
        let mut kept: Vec<Retained> = Vec::new();
        let mut i: usize = 0;
        assert(all.take(0) =~= Seq::<RetainedView>::empty());
        while i < self.retained.len()
            invariant
                i <= all.len(),
                self@ == old(self)@,
                all == self@.retained,
                views(kept@) == retained_without(all.take(i as int), topic@),
            decreases all.len() - i,
        {
            proof {
                assert(all.take(i + 1).drop_last() =~= all.take(i as int));
            }
            if self.retained[i].topic != *topic {
                kept.push(
                    Retained {
                        topic: self.retained[i].topic.clone(),
                        publish: self.retained[i].publish.clone(),
                        props: self.retained[i].props,
                    },
                );
            }
            i = i + 1;
        }
        assert(all.take(i as int) =~= all);
        self.retained = kept;
    }

    pub fn insert_to_retained_publishes(
        &mut self,
        publish: Publish,
        props: Option<PublishProperties>,
        topic: String,
    )
        ensures
            final(self)@ == old(self)@.retain(topic@, publish, props),
    {
        self.remove_from_retained_publishes(&topic);
        self.retained.push(Retained { topic, publish, props });
    }

    /// Puts the retained publishes that a filter selects into its log.
    pub fn handle_retained_messages(
        &mut self,
        filter: &String,
        notifications: &mut VecDeque<(ConnectionId, DataRequest)>,
    )
        requires
            old(self).wf(),
        ensures
            final(self).wf(),
            final(self)@ == old(self)@.append_items(old(self)@.replay_items(filter@)),
            final(notifications)@ == old(notifications)@ + old(self)@.woken(
                old(self)@.replay_items(filter@),
            ),
    {
        let ghost before = self@;
        let ghost told = notifications@;
        proof {
            lemma_find_log(before.native, filter@);
        }
        match find_filter(&self.native, filter) {
            None => {},
            Some(idx) => {
                let mut i: usize = 0;
                assert(before.retained.take(0) =~= Seq::<RetainedView>::empty());
                while i < self.retained.len()
                    invariant
                        i <= before.retained.len(),
                        self.wf(),
                        self@.retained == before.retained,
                        self@.retained.len() == self.retained@.len(),
                        self@.native.len() == before.native.len(),
                        idx < before.native.len(),
                        self@ == before.append_items(
                            replayed(before.retained.take(i as int), filter@, idx),
                        ),
                        notifications@ == told + before.woken(
                            replayed(before.retained.take(i as int), filter@, idx),
                        ),
                    decreases before.retained.len() - i,
                {
                    let ghost items = replayed(before.retained.take(i as int), filter@, idx);
                    proof {
                        assert(before.retained.take(i + 1).drop_last() =~= before.retained.take(
                            i as int,
                        ));
                        assert(before.retained[i as int] == self.retained@[i as int]@);
                    }
                    if crate::topic::matches(self.retained[i].topic.as_str(), filter.as_str()) {
                        let entry = LogEntry {
                            publish: self.retained[i].publish.clone(),
                            expiry: None,
                        };
                        proof {
                            let more = items.push((idx, entry));
                            assert(more.drop_last() =~= items);
                        }
                        self.append(idx, entry, notifications);
                    }
                    i = i + 1;
                }
                assert(before.retained.take(i as int) =~= before.retained);
            },
        }
    }

    pub fn meter(&self, filter: &String) -> (meter: Option<SubscriptionMeter>)
        requires
            self.wf(),
        ensures
            meter == self@.meter(filter@),
    {
        proof {
            lemma_find_log(self@.native, filter@);
        }
        match find_filter(&self.native, filter) {
            Some(idx) => Some(self.native[idx].meter),
            None => None,
        }
    }

    pub fn waiters(&self, filter: &String) -> (waiters: Option<
        &VecDeque<(ConnectionId, DataRequest)>,
    >)
        requires
            self.wf(),
        ensures
            match waiters {
                Some(waiters) => self@.waiters(filter@) == Some(waiters@),
                None => self@.waiters(filter@) is None,
            },
    {
        proof {
            lemma_find_log(self@.native, filter@);
        }
        match find_filter(&self.native, filter) {
            Some(idx) => Some(&self.native[idx].waiters),
            None => None,
        }
    }

    /// The last publish of a filter.
    pub fn shadow(&self, filter: &String) -> (publish: Option<Publish>)
        requires
            self.wf(),
        ensures
            publish == self@.shadow(filter@),
    {
        proof {
            lemma_find_log(self@.native, filter@);
        }
        match find_filter(&self.native, filter) {
            Some(idx) => {
                assert(self@.native[idx as int] == self.native@[idx as int]@);
                match self.native[idx].log.last() {
                    Some(entry) => Some(entry.publish),
                    None => None,
                }
            },
            None => None,
        }
    }
}

} // verus!
