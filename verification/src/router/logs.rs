//! What is owed to clients: acks, and the logs of the filters.
use super::messages::{Ack, AckView, ConnectionId, DataRequest, RouterConfig, SubscriptionMeter};
use crate::protocol::{ConnAck, PubAck, PubComp, PubRec, PubRel, Publish, SubAck, UnsubAck};
use crate::segments::log::{CommitLog, Entry, LogState, Offset};
use crate::topic::topic_matches;
use crate::views::{group_views, views};
use std::collections::VecDeque;
use vstd::prelude::*;

verus! {

broadcast use group_views;

/// The acks of a connection that are still to be sent.
#[derive(Debug)]
pub struct AckLog {
    pub committed: VecDeque<Ack>,
    /// Publishes that were received and not released yet.
    pub recorded: VecDeque<Publish>,
}

#[verifier::ext_equal]
pub struct AckLogState {
    pub committed: Seq<AckView>,
    pub recorded: Seq<Publish>,
}

impl View for AckLog {
    type V = AckLogState;

    open spec fn view(&self) -> AckLogState {
        AckLogState { committed: views(self.committed@), recorded: self.recorded@ }
    }
}

impl AckLogState {
    pub open spec fn empty() -> Self {
        AckLogState { committed: Seq::empty(), recorded: Seq::empty() }
    }

    pub open spec fn commit(self, ack: AckView) -> Self {
        AckLogState { committed: self.committed.push(ack), ..self }
    }

    /// The log without the oldest publish that was not released.
    pub open spec fn released(self) -> Self {
        if self.recorded.len() == 0 {
            self
        } else {
            AckLogState {
                recorded: self.recorded.subrange(1, self.recorded.len() as int),
                ..self
            }
        }
    }
}

impl AckLog {
    pub fn new() -> (log: Self)
        ensures
            log@ == AckLogState::empty(),
    {
        AckLog { committed: VecDeque::new(), recorded: VecDeque::new() }
    }

    pub fn connack(&mut self, id: ConnectionId, ack: ConnAck)
        ensures
            final(self)@ == old(self)@.commit(AckView::ConnAck(id, ack)),
    {
        self.committed.push_back(Ack::ConnAck(id, ack));
    }

    pub fn puback(&mut self, ack: PubAck)
        ensures
            final(self)@ == old(self)@.commit(AckView::PubAck(ack)),
    {
        self.committed.push_back(Ack::PubAck(ack));
    }

    pub fn suback(&mut self, ack: SubAck)
        ensures
            final(self)@ == old(self)@.commit(AckView::SubAck(ack.pkid, ack.return_codes@)),
    {
        self.committed.push_back(Ack::SubAck(ack));
    }

    /// Keeps a publish until it is released.
    pub fn pubrec(&mut self, publish: Publish, ack: PubRec)
        ensures
            final(self)@ == (AckLogState {
                recorded: old(self)@.recorded.push(publish),
                ..old(self)@.commit(AckView::PubRec(ack))
            }),
    {
        self.recorded.push_back(publish);
        self.committed.push_back(Ack::PubRec(ack));
    }

    pub fn pubrel(&mut self, ack: PubRel)
        ensures
            final(self)@ == old(self)@.commit(AckView::PubRel(ack)),
    {
        self.committed.push_back(Ack::PubRel(ack));
    }

    /// Releases the oldest publish that was kept.
    pub fn pubcomp(&mut self, ack: PubComp) -> (publish: Option<Publish>)
        ensures
            final(self)@ == old(self)@.commit(AckView::PubComp(ack)).released(),
            publish is Some == (old(self)@.recorded.len() > 0),
            publish matches Some(publish) ==> publish == old(self)@.recorded[0],
    {
        self.committed.push_back(Ack::PubComp(ack));
        self.recorded.pop_front()
    }

    pub fn unsuback(&mut self, ack: UnsubAck)
        ensures
            final(self)@ == old(self)@.commit(AckView::UnsubAck(ack.pkid, ack.reasons@)),
    {
        self.committed.push_back(Ack::UnsubAck(ack));
    }

    pub fn pingresp(&mut self)
        ensures
            final(self)@ == old(self)@.commit(AckView::PingResp),
    {
        self.committed.push_back(Ack::PingResp);
    }

    /// Takes the acks out.
    pub fn readv(&mut self) -> (acks: VecDeque<Ack>)
        ensures
            views(acks@) == old(self)@.committed,
            final(self)@ == (AckLogState { committed: Seq::empty(), ..old(self)@ }),
    {
        let mut acks: VecDeque<Ack> = VecDeque::new();
        std::mem::swap(&mut self.committed, &mut acks);
        acks
    }
}

/// The log of one filter, and the connections that wait for more of it.
pub struct FilterLog<T> {
    pub filter: String,
    pub log: CommitLog<T>,
    pub waiters: VecDeque<(ConnectionId, DataRequest)>,
    pub meter: SubscriptionMeter,
}

#[verifier::ext_equal]
pub struct FilterLogState<V> {
    pub filter: Seq<char>,
    pub log: LogState<V>,
    pub waiters: Seq<(ConnectionId, DataRequest)>,
    pub meter: SubscriptionMeter,
}

impl<T: View> View for FilterLog<T> {
    type V = FilterLogState<T::V>;

    open spec fn view(&self) -> FilterLogState<T::V> {
        FilterLogState {
            filter: self.filter@,
            log: self.log@,
            waiters: self.waiters@,
            meter: self.meter,
        }
    }
}

/// Those who wait, without one connection.
pub open spec fn waiters_without(
    waiters: Seq<(ConnectionId, DataRequest)>,
    id: ConnectionId,
) -> Seq<(ConnectionId, DataRequest)>
    decreases waiters.len(),
{
    if waiters.len() == 0 {
        Seq::empty()
    } else {
        let before = waiters_without(waiters.drop_last(), id);
        if waiters.last().0 == id {
            before
        } else {
            before.push(waiters.last())
        }
    }
}

/// What one connection waits for.
pub open spec fn requests_of(
    waiters: Seq<(ConnectionId, DataRequest)>,
    id: ConnectionId,
) -> Seq<DataRequest>
    decreases waiters.len(),
{
    if waiters.len() == 0 {
        Seq::empty()
    } else {
        let before = requests_of(waiters.drop_last(), id);
        if waiters.last().0 == id {
            before.push(waiters.last().1)
        } else {
            before
        }
    }
}

impl<V> FilterLogState<V> {
    pub open spec fn new(filter: Seq<char>, config: RouterConfig) -> Self {
        FilterLogState {
            filter,
            log: LogState::new(config.max_segment_size, config.max_mem_segments),
            waiters: Seq::empty(),
            meter: SubscriptionMeter { count: 0, total_size: 0 },
        }
    }

    pub open spec fn append(self, item: V, weight: nat) -> Self {
        FilterLogState {
            log: self.log.append(item, weight),
            meter: SubscriptionMeter {
                count: self.meter.count.wrapping_add(1),
                total_size: self.meter.total_size.wrapping_add(weight as usize),
            },
            ..self
        }
    }

    pub open spec fn drained(self) -> Self {
        FilterLogState { waiters: Seq::empty(), ..self }
    }

    pub open spec fn park(self, id: ConnectionId, request: DataRequest) -> Self {
        FilterLogState { waiters: self.waiters.push((id, request)), ..self }
    }

    pub open spec fn without(self, id: ConnectionId) -> Self {
        FilterLogState { waiters: waiters_without(self.waiters, id), ..self }
    }
}

impl<T: Entry> FilterLog<T> {
    pub fn new(filter: String, config: &RouterConfig) -> (log: Self)
        requires
            config.valid(),
        ensures
            log@ == FilterLogState::<T::V>::new(filter@, *config),
            log@.log.wf(),
    {
        FilterLog {
            filter,
            log: CommitLog::new(config.max_segment_size, config.max_mem_segments),
            waiters: VecDeque::new(),
            meter: SubscriptionMeter { count: 0, total_size: 0 },
        }
    }

    /// Adds an entry. Gives the place just behind it.
    pub fn append(&mut self, item: T) -> (offset: Offset)
        requires
            old(self)@.log.wf(),
        ensures
            final(self)@ == old(self)@.append(item@, T::weight(item@)),
            final(self)@.log.wf(),
            offset == final(self)@.log.next_offset(),
    {
        proof {
            item.lemma_weight();
        }
        let size = item.size();
        self.meter.count = self.meter.count.wrapping_add(1);
        self.meter.total_size = self.meter.total_size.wrapping_add(size);
        self.log.append(item)
    }

    /// Takes out what a connection waits for.
    pub fn remove_waiter(&mut self, id: ConnectionId) -> (requests: Vec<DataRequest>)
        ensures
            final(self)@ == old(self)@.without(id),
            requests@ == requests_of(old(self)@.waiters, id),
    {
        let ghost all = self.waiters@;
        let mut kept: VecDeque<(ConnectionId, DataRequest)> = VecDeque::new();
        let mut requests: Vec<DataRequest> = Vec::new();
        let mut i: usize = 0;
        assert(all.take(0) =~= Seq::<(ConnectionId, DataRequest)>::empty());
        while i < self.waiters.len()
            invariant
                i <= all.len(),
                self.waiters@ == all,
                kept@ == waiters_without(all.take(i as int), id),
                requests@ == requests_of(all.take(i as int), id),
            decreases all.len() - i,
        {
            proof {
                assert(all.take(i + 1).drop_last() =~= all.take(i as int));
            }
            let request = self.waiters[i].1.clone();
            if self.waiters[i].0 == id {
                requests.push(request);
            } else {
                kept.push_back((self.waiters[i].0, request));
            }
            i = i + 1;
        }
        assert(all.take(i as int) =~= all);
        self.waiters = kept;
        requests
    }
}

/// The position of the log of a filter.
pub open spec fn find_log<V>(logs: Seq<FilterLogState<V>>, filter: Seq<char>) -> Option<usize>
    decreases logs.len(),
{
    if logs.len() == 0 {
        None
    } else {
        let before = find_log(logs.drop_last(), filter);
        if before is Some {
            before
        } else if logs.last().filter == filter {
            Some((logs.len() - 1) as usize)
        } else {
            None
        }
    }
}

/// The positions of the logs whose filters select a topic, in order.
pub open spec fn matching<V>(logs: Seq<FilterLogState<V>>, topic: Seq<char>) -> Seq<usize>
    decreases logs.len(),
{
    if logs.len() == 0 {
        Seq::empty()
    } else {
        let before = matching(logs.drop_last(), topic);
        if topic_matches(topic, logs.last().filter) {
            before.push((logs.len() - 1) as usize)
        } else {
            before
        }
    }
}

/// The logs of different filters, each in good shape.
pub open spec fn logs_wf<V>(logs: Seq<FilterLogState<V>>) -> bool {
    &&& logs.len() <= usize::MAX
    &&& forall|i: int| 0 <= i < logs.len() ==> (#[trigger] logs[i]).log.wf()
    &&& forall|i: int, j: int|
        0 <= i < j < logs.len() ==> (#[trigger] logs[i]).filter != (#[trigger] logs[j]).filter
}

/// A log that is found is the one of the filter; where none is found there is
/// none.
pub proof fn lemma_find_log<V>(logs: Seq<FilterLogState<V>>, filter: Seq<char>)
    requires
        logs.len() <= usize::MAX,
    ensures
        match find_log(logs, filter) {
            Some(i) => i < logs.len() && logs[i as int].filter == filter,
            None => forall|i: int| 0 <= i < logs.len() ==> (#[trigger] logs[i]).filter != filter,
        },
    decreases logs.len(),
{
    if logs.len() > 0 {
        lemma_find_log(logs.drop_last(), filter);
        if find_log(logs, filter) is None {
            assert forall|i: int| 0 <= i < logs.len() implies (#[trigger] logs[i]).filter
                != filter by {
                if i < logs.len() - 1 {
                    assert(logs.drop_last()[i] == logs[i]);
                }
            }
        }
    }
}

/// The positions that are listed are those of the logs whose filters select the
/// topic, each once and in order.
pub proof fn lemma_matching<V>(logs: Seq<FilterLogState<V>>, topic: Seq<char>)
    requires
        logs.len() <= usize::MAX,
    ensures
        forall|k: int|
            0 <= k < matching(logs, topic).len() ==> (#[trigger] matching(logs, topic)[k])
                < logs.len() && topic_matches(topic, logs[matching(logs, topic)[k] as int].filter),
        forall|i: usize|
            i < logs.len() && topic_matches(topic, (#[trigger] logs[i as int]).filter)
                ==> matching(logs, topic).contains(i),
        forall|j: int, k: int|
            0 <= j < k < matching(logs, topic).len() ==> matching(logs, topic)[j] < matching(
                logs,
                topic,
            )[k],
    decreases logs.len(),
{
    if logs.len() > 0 {
        let shorter = logs.drop_last();
        lemma_matching(shorter, topic);
        let before = matching(shorter, topic);
        let all = matching(logs, topic);
        assert forall|k: int| 0 <= k < all.len() implies (#[trigger] all[k]) < logs.len()
            && topic_matches(topic, logs[all[k] as int].filter) by {
            if k < before.len() {
                assert(all[k] == before[k]);
                assert(shorter[before[k] as int] == logs[before[k] as int]);
            }
        }
        assert forall|i: usize|
            i < logs.len() && topic_matches(
                topic,
                (#[trigger] logs[i as int]).filter,
            ) implies all.contains(i) by {
            if i < logs.len() - 1 {
                assert(shorter[i as int] == logs[i as int]);
                let k = choose|k: int| 0 <= k < before.len() && before[k] == i;
                assert(all[k] == i);
            } else {
                assert(all[all.len() - 1] == i);
            }
        }
        assert forall|j: int, k: int| 0 <= j < k < all.len() implies all[j] < all[k] by {
            assert(all[j] == before[j]);
            if k < before.len() {
                assert(all[k] == before[k]);
            }
        }
    }
}

/// The position of the log of a filter, or the one that a new log gets.
pub open spec fn log_index<V>(logs: Seq<FilterLogState<V>>, filter: Seq<char>) -> usize {
    match find_log(logs, filter) {
        Some(idx) => idx,
        None => logs.len() as usize,
    }
}

/// The logs with one for a filter.
pub open spec fn with_filter<V>(
    logs: Seq<FilterLogState<V>>,
    filter: Seq<char>,
    config: RouterConfig,
) -> Seq<FilterLogState<V>> {
    match find_log(logs, filter) {
        Some(_) => logs,
        None => logs.push(FilterLogState::new(filter, config)),
    }
}

/// A log that was missing is found afterwards, and the others stay as they are.
pub proof fn lemma_with_filter<V>(
    logs: Seq<FilterLogState<V>>,
    filter: Seq<char>,
    config: RouterConfig,
)
    requires
        logs_wf(logs),
        config.valid(),
        logs.len() < usize::MAX || find_log(logs, filter) is Some,
    ensures
        logs_wf(with_filter(logs, filter, config)),
        log_index(logs, filter) < with_filter(logs, filter, config).len(),
        find_log(with_filter(logs, filter, config), filter) == Some(log_index(logs, filter)),
        with_filter(logs, filter, config)[log_index(logs, filter) as int].filter == filter,
        logs.is_prefix_of(with_filter(logs, filter, config)),
{
    lemma_find_log(logs, filter);
    if find_log(logs, filter) is None {
        let log = FilterLogState::<V>::new(filter, config);
        LogState::<V>::lemma_new(config.max_segment_size, config.max_mem_segments);
        assert(logs.push(log).drop_last() =~= logs);
        assert(logs.push(log).take(logs.len() as int) =~= logs);
    } else {
        assert(logs.take(logs.len() as int) =~= logs);
    }
}

/// The position of the log of a filter, which is begun where there is none.
pub fn ensure_filter<T: Entry>(
    logs: &mut Vec<FilterLog<T>>,
    filter: &str,
    config: &RouterConfig,
) -> (idx: usize)
    requires
        logs_wf(views(old(logs)@)),
        config.valid(),
    ensures
        logs_wf(views(final(logs)@)),
        views(final(logs)@) == with_filter(views(old(logs)@), filter@, *config),
        idx == log_index(views(old(logs)@), filter@),
        idx < final(logs)@.len(),
        views(final(logs)@)[idx as int].filter == filter@,
{
    let ghost before = views(logs@);
    let name = filter.to_owned();
    proof {
        lemma_find_log(before, filter@);
    }
    match find_filter(logs, &name) {
        Some(idx) => idx,
        None => {
            let idx = logs.len();
            logs.push(FilterLog::new(name, config));
            proof {
                assert(logs.len() <= usize::MAX);
                lemma_with_filter(before, filter@, *config);
            }
            idx
        },
    }
}

pub fn find_filter<T: Entry>(logs: &Vec<FilterLog<T>>, filter: &String) -> (found: Option<usize>)
    ensures
        found == find_log(views(logs@), filter@),
{
    let ghost all = views(logs@);
    let mut i: usize = 0;
    assert(all.take(0) =~= Seq::<FilterLogState<T::V>>::empty());
    while i < logs.len()
        invariant
            i <= logs.len(),
            all == views(logs@),
            find_log(all.take(i as int), filter@) is None,
        decreases logs.len() - i,
    {
        proof {
            assert(all.take(i + 1).drop_last() =~= all.take(i as int));
        }
        if logs[i].filter == *filter {
            proof {
                lemma_find_log_prefix(all, filter@, i + 1);
            }
            return Some(i);
        }
        i = i + 1;
    }
    assert(all.take(i as int) =~= all);
    None
}

/// What is found among the first logs is found among all of them.
proof fn lemma_find_log_prefix<V>(logs: Seq<FilterLogState<V>>, filter: Seq<char>, n: int)
    requires
        0 <= n <= logs.len(),
        find_log(logs.take(n), filter) is Some,
    ensures
        find_log(logs, filter) == find_log(logs.take(n), filter),
    decreases logs.len(),
{
    if n < logs.len() {
        assert(logs.drop_last().take(n) =~= logs.take(n));
        lemma_find_log_prefix(logs.drop_last(), filter, n);
    } else {
        assert(logs.take(n) =~= logs);
    }
}

pub fn matching_filters<T: Entry>(logs: &Vec<FilterLog<T>>, topic: &str) -> (found: Vec<usize>)
    ensures
        found@ == matching(views(logs@), topic@),
{
    let ghost all = views(logs@);
    let mut found: Vec<usize> = Vec::new();
    let mut i: usize = 0;
    assert(all.take(0) =~= Seq::<FilterLogState<T::V>>::empty());
    while i < logs.len()
        invariant
            i <= logs.len(),
            all == views(logs@),
            found@ == matching(all.take(i as int), topic@),
        decreases logs.len() - i,
    {
        proof {
            assert(all.take(i + 1).drop_last() =~= all.take(i as int));
        }
        if crate::topic::matches(topic, logs[i].filter.as_str()) {
            found.push(i);
        }
        i = i + 1;
    }
    assert(all.take(i as int) =~= all);
    found
}

} // verus!
