//! What happens to clients, for those who want to know.
use super::errors::RouterError;
use super::logs::{
    ensure_filter, find_filter, find_log, lemma_find_log, lemma_matching, log_index, logs_wf,
    matching, matching_filters, with_filter, FilterLog, FilterLogState,
};
use super::messages::RouterConfig;
use crate::protocol::{Filter, Subscribe, Unsubscribe};
use crate::segments::log::{view_entries, Entry, Offset, Position};
use crate::segments::utils::Storage;
use crate::text;
use crate::views::{group_views, views};
use vstd::prelude::*;
use vstd::string::*;

verus! {

broadcast use group_views;

#[derive(Debug, PartialEq, Eq)]
pub enum AlertEvent {
    Connect,
    Disconnect,
    Subscribe(Subscribe),
    Unsubscribe(Unsubscribe),
}

#[derive(Debug, PartialEq, Eq)]
pub enum AlertError {
    /// A client was too slow, and publishes were dropped before it got them.
    CursorJump(String),
}

/// Something that happened to a client.
#[derive(Debug, PartialEq, Eq)]
pub enum Alert {
    Event(String, AlertEvent),
    Error(String, AlertError),
}

#[verifier::ext_equal]
pub enum AlertView {
    Connect(Seq<char>),
    Disconnect(Seq<char>),
    Subscribe(Seq<char>, u16, Seq<Filter>),
    Unsubscribe(Seq<char>, u16, Seq<String>),
    CursorJump(Seq<char>, Seq<char>),
}

impl View for Alert {
    type V = AlertView;

    open spec fn view(&self) -> AlertView {
        match *self {
            Alert::Event(client_id, AlertEvent::Connect) => AlertView::Connect(client_id@),
            Alert::Event(client_id, AlertEvent::Disconnect) => AlertView::Disconnect(client_id@),
            Alert::Event(client_id, AlertEvent::Subscribe(subscribe)) => AlertView::Subscribe(
                client_id@,
                subscribe.pkid,
                subscribe.filters@,
            ),
            Alert::Event(client_id, AlertEvent::Unsubscribe(unsubscribe)) => AlertView::Unsubscribe(
                client_id@,
                unsubscribe.pkid,
                unsubscribe.filters@,
            ),
            Alert::Error(client_id, AlertError::CursorJump(error)) => AlertView::CursorJump(
                client_id@,
                error@,
            ),
        }
    }
}

impl AlertView {
    /// Whom the alert is about.
    pub open spec fn client_id(self) -> Seq<char> {
        match self {
            AlertView::Connect(client_id) => client_id,
            AlertView::Disconnect(client_id) => client_id,
            AlertView::Subscribe(client_id, _, _) => client_id,
            AlertView::Unsubscribe(client_id, _, _) => client_id,
            AlertView::CursorJump(client_id, _) => client_id,
        }
    }

    /// The topic that alerts of this sort about this client have.
    pub open spec fn topic(self) -> Seq<char> {
        (match self {
            AlertView::Connect(_) => "/alerts/event/connect/"@,
            AlertView::Disconnect(_) => "/alerts/event/disconnect/"@,
            AlertView::Subscribe(_, _, _) => "/alerts/event/subscribe/"@,
            AlertView::Unsubscribe(_, _, _) => "/alerts/event/unsubscribe/"@,
            AlertView::CursorJump(_, _) => "/alerts/error/cursorjump/"@,
        }) + self.client_id()
    }

    pub open spec fn weight(self) -> usize {
        if self.client_id().len() + 4 > usize::MAX {
            usize::MAX
        } else {
            (self.client_id().len() + 4) as usize
        }
    }
}

fn copy_filters(filters: &Vec<Filter>) -> (copy: Vec<Filter>)
    ensures
        copy@ == filters@,
{
    let mut copy: Vec<Filter> = Vec::new();
    let mut i: usize = 0;
    while i < filters.len()
        invariant
            i <= filters.len(),
            copy@ == filters@.take(i as int),
        decreases filters.len() - i,
    {
        copy.push(Filter { path: filters[i].path.clone(), qos: filters[i].qos });
        i = i + 1;
        assert(copy@ =~= filters@.take(i as int));
    }
    assert(copy@ =~= filters@);
    copy
}

pub fn copy_names(names: &Vec<String>) -> (copy: Vec<String>)
    ensures
        copy@ == names@,
{
    let mut copy: Vec<String> = Vec::new();
    let mut i: usize = 0;
    while i < names.len()
        invariant
            i <= names.len(),
            copy@ == names@.take(i as int),
        decreases names.len() - i,
    {
        copy.push(names[i].clone());
        i = i + 1;
        assert(copy@ =~= names@.take(i as int));
    }
    assert(copy@ =~= names@);
    copy
}

impl Alert {
    pub fn event(client_id: String, event: AlertEvent) -> (alert: Alert)
        ensures
            alert == Alert::Event(client_id, event),
    {
        Alert::Event(client_id, event)
    }

    pub fn error(client_id: String, error: AlertError) -> (alert: Alert)
        ensures
            alert == Alert::Error(client_id, error),
    {
        Alert::Error(client_id, error)
    }

    fn client_id(&self) -> (client_id: &String)
        ensures
            client_id@ == self@.client_id(),
    {
        match self {
            Alert::Event(client_id, _) => client_id,
            Alert::Error(client_id, _) => client_id,
        }
    }

    /// The topic that alerts of this sort about this client have.
    pub fn topic(&self) -> (topic: String)
        ensures
            topic@ == self@.topic(),
    {
        let sort = match self {
            Alert::Event(_, AlertEvent::Connect) => "/alerts/event/connect/",
            Alert::Event(_, AlertEvent::Disconnect) => "/alerts/event/disconnect/",
            Alert::Event(_, AlertEvent::Subscribe(_)) => "/alerts/event/subscribe/",
            Alert::Event(_, AlertEvent::Unsubscribe(_)) => "/alerts/event/unsubscribe/",
            Alert::Error(_, AlertError::CursorJump(_)) => "/alerts/error/cursorjump/",
        };
        text::join(sort, self.client_id().as_str())
    }
}

impl Storage for Alert {
    open spec fn spec_size(&self) -> nat {
        self@.weight() as nat
    }

    fn size(&self) -> (size: usize) {
        self.client_id().as_str().unicode_len().saturating_add(4)
    }
}

impl Entry for Alert {
    open spec fn weight(v: AlertView) -> nat {
        v.weight() as nat
    }

    proof fn lemma_weight(&self) {
    }

    fn copy(&self) -> (copy: Self) {
        match self {
            Alert::Event(client_id, AlertEvent::Connect) => Alert::Event(
                client_id.clone(),
                AlertEvent::Connect,
            ),
            Alert::Event(client_id, AlertEvent::Disconnect) => Alert::Event(
                client_id.clone(),
                AlertEvent::Disconnect,
            ),
            Alert::Event(client_id, AlertEvent::Subscribe(subscribe)) => Alert::Event(
                client_id.clone(),
                AlertEvent::Subscribe(
                    Subscribe {
                        pkid: subscribe.pkid,
                        filters: copy_filters(&subscribe.filters),
                    },
                ),
            ),
            Alert::Event(client_id, AlertEvent::Unsubscribe(unsubscribe)) => Alert::Event(
                client_id.clone(),
                AlertEvent::Unsubscribe(
                    Unsubscribe {
                        pkid: unsubscribe.pkid,
                        filters: copy_names(&unsubscribe.filters),
                    },
                ),
            ),
            Alert::Error(client_id, AlertError::CursorJump(error)) => Alert::Error(
                client_id.clone(),
                AlertError::CursorJump(error.clone()),
            ),
        }
    }
}

pub struct AlertLog {
    pub config: RouterConfig,
    pub native: Vec<FilterLog<Alert>>,
}

#[verifier::ext_equal]
pub struct AlertLogState {
    pub config: RouterConfig,
    pub native: Seq<FilterLogState<AlertView>>,
}

impl View for AlertLog {
    type V = AlertLogState;

    open spec fn view(&self) -> AlertLogState {
        AlertLogState { config: self.config, native: views(self.native@) }
    }
}

impl AlertLogState {
    pub open spec fn new(config: RouterConfig) -> Self {
        AlertLogState { config, native: Seq::empty() }
    }

    pub open spec fn wf(self) -> bool {
        &&& self.config.valid()
        &&& logs_wf(self.native)
    }

    pub open spec fn has(self, filter: Seq<char>) -> bool {
        find_log(self.native, filter) is Some
    }

    /// The logs with one for a filter.
    pub open spec fn ensure_log(self, filter: Seq<char>) -> Self {
        AlertLogState { native: with_filter(self.native, filter, self.config), ..self }
    }

    /// The place just behind the last alert of a filter.
    pub open spec fn next_offset(self, filter: Seq<char>) -> Offset {
        self.ensure_log(filter).native[log_index(self.native, filter) as int].log.next_offset()
    }

    /// The log of a filter that has one.
    pub open spec fn log(self, filter: Seq<char>) -> FilterLogState<AlertView> {
        self.native[find_log(self.native, filter)->0 as int]
    }

    pub open spec fn append_to(self, idxs: Seq<usize>, alert: AlertView) -> Self
        decreases idxs.len(),
    {
        if idxs.len() == 0 {
            self
        } else {
            let before = self.append_to(idxs.drop_last(), alert);
            let idx = idxs.last() as int;
            AlertLogState {
                native: before.native.update(
                    idx,
                    before.native[idx].append(alert, alert.weight() as nat),
                ),
                ..before
            }
        }
    }

    /// The logs with one more alert, in each log whose filter selects its topic.
    pub open spec fn append(self, alert: AlertView) -> Self {
        self.append_to(matching(self.native, alert.topic()), alert)
    }

    /// The place just behind the alert in the last log it went to, or the
    /// origin.
    pub open spec fn append_offset(self, alert: AlertView) -> Offset {
        let idxs = matching(self.native, alert.topic());
        if idxs.len() == 0 {
            (0, 0)
        } else {
            self.append(alert).native[idxs.last() as int].log.next_offset()
        }
    }

    pub proof fn lemma_append_to(self, idxs: Seq<usize>, alert: AlertView)
        requires
            self.wf(),
            forall|k: int| 0 <= k < idxs.len() ==> (#[trigger] idxs[k]) < self.native.len(),
        ensures
            self.append_to(idxs, alert).wf(),
            self.append_to(idxs, alert).config == self.config,
            self.append_to(idxs, alert).native.len() == self.native.len(),
            forall|i: int|
                0 <= i < self.native.len() ==> (#[trigger] self.append_to(
                    idxs,
                    alert,
                ).native[i]).filter == self.native[i].filter,
        decreases idxs.len(),
    {
        if idxs.len() > 0 {
            let shorter = idxs.drop_last();
            assert forall|k: int| 0 <= k < shorter.len() implies (#[trigger] shorter[k])
                < self.native.len() by {
                assert(shorter[k] == idxs[k]);
            }
            self.lemma_append_to(shorter, alert);
            let before = self.append_to(shorter, alert);
            let idx = idxs.last() as int;
            assert(idxs[idxs.len() - 1] < self.native.len());
            before.native[idx].log.lemma_append(alert, alert.weight() as nat);
        }
    }

    /// An alert changes no filter.
    pub proof fn lemma_append(self, alert: AlertView)
        requires
            self.wf(),
        ensures
            self.append(alert).wf(),
            self.append(alert).config == self.config,
            self.append(alert).native.len() == self.native.len(),
            forall|filter: Seq<char>| #[trigger]
                find_log(self.append(alert).native, filter) == find_log(self.native, filter),
    {
        lemma_matching(self.native, alert.topic());
        let idxs = matching(self.native, alert.topic());
        self.lemma_append_to(idxs, alert);
        assert forall|filter: Seq<char>| #[trigger]
            find_log(self.append(alert).native, filter) == find_log(self.native, filter) by {
            lemma_same_filters(self.append(alert).native, self.native, filter);
        }
    }
}

/// Logs of the same filters are found at the same positions.
proof fn lemma_same_filters<V>(
    a: Seq<FilterLogState<V>>,
    b: Seq<FilterLogState<V>>,
    filter: Seq<char>,
)
    requires
        a.len() == b.len(),
        forall|i: int| 0 <= i < a.len() ==> (#[trigger] a[i]).filter == b[i].filter,
    ensures
        find_log(a, filter) == find_log(b, filter),
    decreases a.len(),
{
    if a.len() > 0 {
        lemma_same_filters(a.drop_last(), b.drop_last(), filter);
    }
}

impl AlertLog {
    pub open spec fn wf(&self) -> bool {
        self@.wf()
    }

    pub fn new(config: RouterConfig) -> (log: Self)
        requires
            config.valid(),
        ensures
            log.wf(),
            log@ == AlertLogState::new(config),
    {
        AlertLog { config, native: Vec::new() }
    }

    /// The logs whose filters select a topic.
    pub fn matches(&self, topic: &str) -> (found: Vec<usize>)
        ensures
            found@ == matching(self@.native, topic@),
    {
        matching_filters(&self.native, topic)
    }

    /// The log of a filter, which is begun where there is none, and the place
    /// just behind its last alert.
    pub fn next_native_offset(&mut self, filter: &str) -> (out: (usize, Offset))
        requires
            old(self).wf(),
        ensures
            final(self).wf(),
            final(self)@ == old(self)@.ensure_log(filter@),
            out.0 == log_index(old(self)@.native, filter@),
            out.1 == old(self)@.next_offset(filter@),
    {
        let idx = ensure_filter(&mut self.native, filter, &self.config);
        assert(self@.native[idx as int] == self.native@[idx as int]@);
        (idx, self.native[idx].log.next_offset())
    }

    /// At most `len` alerts of a filter from an offset on, and where the next
    /// read starts.
    pub fn native_readv(&self, filter: &String, offset: Offset, len: u64) -> (out: (
        Vec<(Alert, Offset)>,
        Offset,
    ))
        requires
            self.wf(),
            self@.has(filter@),
        ensures
            view_entries(out.0@) == self@.log(filter@).log.read(offset, len),
            match self@.log(filter@).log.read_position(offset, len) {
                Position::Next { start: _, end } => out.1 == end,
                Position::Done { start: _, end } => out.1 == end,
            },
    {
        proof {
            lemma_find_log(self@.native, filter@);
        }
        let idx = find_filter(&self.native, filter).unwrap();
        assert(self@.native[idx as int] == self.native@[idx as int]@);
        let (position, alerts) = self.native[idx].log.readv(offset, len);
        match position {
            Position::Next { start: _, end } => (alerts, end),
            Position::Done { start: _, end } => (alerts, end),
        }
    }
}

/// Puts an alert into each log whose filter selects its topic. Gives the place
/// just behind it in the last of them.
pub fn append_to_alertlog(alert: Alert, alertlog: &mut AlertLog) -> (offset: Result<
    Offset,
    RouterError,
>)
    requires
        old(alertlog).wf(),
    ensures
        final(alertlog).wf(),
        final(alertlog)@ == old(alertlog)@.append(alert@),
        offset == Ok::<Offset, RouterError>(old(alertlog)@.append_offset(alert@)),
{
    let ghost before = alertlog@;
    let topic = alert.topic();
    let idxs = alertlog.matches(topic.as_str());
    proof {
        lemma_matching(before.native, topic@);
    }
    let mut offset: Offset = (0, 0);
    let mut i: usize = 0;
    assert(idxs@.take(0) =~= Seq::<usize>::empty());
    while i < idxs.len()
        invariant
            i <= idxs.len(),
            idxs@ == matching(before.native, topic@),
            topic@ == alert@.topic(),
            forall|k: int| 0 <= k < idxs@.len() ==> (#[trigger] idxs@[k]) < before.native.len(),
            alertlog@.native.len() == before.native.len(),
            before.wf(),
            alertlog.wf(),
            alertlog@ == before.append_to(idxs@.take(i as int), alert@),
            i == 0 ==> offset == (0u64, 0u64),
            i > 0 ==> offset == alertlog@.native[idxs@[i - 1] as int].log.next_offset(),
        decreases idxs.len() - i,
    {
        proof {
            assert(idxs@.take(i + 1).drop_last() =~= idxs@.take(i as int));
            assert forall|k: int| 0 <= k < i + 1 implies (#[trigger] idxs@.take(i + 1)[k])
                < before.native.len() by {
                assert(idxs@.take(i + 1)[k] == idxs@[k]);
            }
            before.lemma_append_to(idxs@.take(i + 1), alert@);
            assert(alertlog@.native[idxs@[i as int] as int]
                == alertlog.native@[idxs@[i as int] as int]@);
        }
        let idx = idxs[i];
        offset = alertlog.native[idx].append(alert.copy());
        assert(alertlog@ =~= before.append_to(idxs@.take(i + 1), alert@));
        i = i + 1;
    }
    assert(idxs@.take(i as int) =~= idxs@);
    Ok(offset)
}

} // verus!
