//! The sessions of clients that went away.
use super::messages::ConnectionEvents;
use super::scheduler::{PauseReason, Tracker, TrackerState};
use crate::clock::{instant_after, instant_nanos, instant_now};
use crate::registry::{NameSet, Registry};
use std::time::Instant;
use vstd::prelude::*;

verus! {

/// Saved sessions, by client id.
pub struct Graveyard {
    connections: Registry<SavedState>,
}

/// What is left of a connection.
#[derive(Debug)]
pub struct SavedState {
    pub tracker: Tracker,
    pub subscriptions: NameSet,
    pub metrics: ConnectionEvents,
    /// When the session is no longer worth keeping.
    pub expiry: Option<Instant>,
}

#[verifier::ext_equal]
pub struct SavedStateView {
    pub tracker: TrackerState,
    pub subscriptions: Set<Seq<char>>,
    pub metrics: Seq<Seq<char>>,
    pub expiry: Option<Instant>,
}

impl View for SavedState {
    type V = SavedStateView;

    open spec fn view(&self) -> SavedStateView {
        SavedStateView {
            tracker: self.tracker@,
            subscriptions: self.subscriptions@,
            metrics: self.metrics@,
            expiry: self.expiry,
        }
    }
}

impl SavedStateView {
    /// Whether the session is still worth keeping.
    pub open spec fn alive(self, now: Instant) -> bool {
        match self.expiry {
            Some(expiry) => instant_nanos(expiry) > instant_nanos(now),
            None => true,
        }
    }

    pub open spec fn new(client_id: Seq<char>) -> Self {
        SavedStateView {
            tracker: TrackerState::new(client_id),
            subscriptions: Set::empty(),
            metrics: Seq::empty(),
            expiry: None,
        }
    }
}

impl SavedState {
    /// A session in which nothing has happened.
    pub fn new(client_id: String) -> (state: SavedState)
        ensures
            state@ == SavedStateView::new(client_id@),
    {
        SavedState {
            tracker: Tracker::new(client_id),
            subscriptions: NameSet::new(),
            metrics: ConnectionEvents::new(),
            expiry: None,
        }
    }
}

/// The sessions that have not expired.
pub open spec fn unexpired(
    saved: Map<Seq<char>, SavedStateView>,
    now: Instant,
) -> Map<Seq<char>, SavedStateView> {
    Map::new(
        |id: Seq<char>| saved.contains_key(id) && saved[id].alive(now),
        |id: Seq<char>| saved[id],
    )
}

/// What comes back for a client at a time.
pub open spec fn retrieved(
    saved: Map<Seq<char>, SavedStateView>,
    id: Seq<char>,
    now: Instant,
) -> Option<SavedStateView> {
    if unexpired(saved, now).contains_key(id) {
        Some(saved[id])
    } else {
        None
    }
}

/// A session as it is kept: its connection has to be scheduled anew.
pub open spec fn buried(
    tracker: TrackerState,
    subscriptions: Set<Seq<char>>,
    metrics: Seq<Seq<char>>,
    expiry: Option<Instant>,
) -> SavedStateView {
    SavedStateView { tracker: tracker.pause(PauseReason::Busy), subscriptions, metrics, expiry }
}

pub open spec fn view_saved(saved: Option<SavedState>) -> Option<SavedStateView> {
    match saved {
        Some(saved) => Some(saved@),
        None => None,
    }
}

impl View for Graveyard {
    type V = Map<Seq<char>, SavedStateView>;

    closed spec fn view(&self) -> Map<Seq<char>, SavedStateView> {
        self.connections@
    }
}

impl Graveyard {
    pub closed spec fn wf(&self) -> bool {
        self.connections.wf()
    }

    pub fn new() -> (graveyard: Graveyard)
        ensures
            graveyard.wf(),
            graveyard@ == Map::<Seq<char>, SavedStateView>::empty(),
    {
        Graveyard { connections: Registry::new() }
    }

    /// Takes the session of a client out, where there is one that has not
    /// expired. The expired sessions are dropped, by the clock of the moment.
    pub fn retrieve(&mut self, id: &str) -> (saved: Option<SavedState>)
        requires
            old(self).wf(),
        ensures
            final(self).wf(),
            exists|now: Instant|
                final(self)@ == unexpired(old(self)@, now).remove(id@) && view_saved(saved)
                    == #[trigger] retrieved(old(self)@, id@, now),
            saved is Some ==> old(self)@.contains_key(id@) && saved->0@ == old(self)@[id@],
            old(self)@.contains_key(id@) && old(self)@[id@].expiry is None ==> saved is Some,
    {
        let now = instant_now();
        self.retrieve_at(id, now)
    }

    /// Takes the session of a client out at a given time.
    pub fn retrieve_at(&mut self, id: &str, now: Instant) -> (saved: Option<SavedState>)
        requires
            old(self).wf(),
        ensures
            final(self).wf(),
            final(self)@ == unexpired(old(self)@, now).remove(id@),
            view_saved(saved) == retrieved(old(self)@, id@, now),
    {
        self.cleanup_expired_sessions(now);
        let id = id.to_owned();
        self.connections.remove(&id)
    }

    /// Drops the sessions that have expired.
    pub fn cleanup_expired_sessions(&mut self, now: Instant)
        requires
            old(self).wf(),
        ensures
            final(self).wf(),
            final(self)@ == unexpired(old(self)@, now),
    {
        let ghost before = self@;
        let mut i: usize = 0;
        proof {
            self.connections.lemma_order();
        }
        while i < self.connections.len()
            invariant
                self.connections.wf(),
                i <= self.connections.order().len(),
                forall|k: Seq<char>| #[trigger]
                    self.connections@.contains_key(k) ==> self@.contains_key(k),
                forall|k: Seq<char>| #[trigger]
                    self@.contains_key(k) ==> before.contains_key(k) && self@[k] == before[k],
                forall|k: Seq<char>| #[trigger]
                    before.contains_key(k) && before[k].alive(now) ==> self@.contains_key(k),
                forall|j: int|
                    0 <= j < i ==> before[#[trigger] self.connections.order()[j]].alive(now),
            decreases self.connections.order().len() - i,
        {
            let ghost order = self.connections.order();
            let ghost was = self.connections@;
            let ghost name = order[i as int];
            let keep = match self.connections.value_at(i).expiry {
                Some(expiry) => instant_after(expiry, now),
                None => true,
            };
            assert(before.contains_key(name) && before[name] == was[name]);
            if keep {
                i = i + 1;
            } else {
                self.connections.remove_at(i);
                proof {
                    assert forall|k: Seq<char>| #[trigger] self@.contains_key(k) implies before.contains_key(k) && self@[k]
                        == before[k] by {
                        assert(was.contains_key(k));
                    }
                    assert forall|j: int| 0 <= j < i implies before[#[trigger] self.connections.order()[j]].alive(
                    now) by {
                        assert(self.connections.order()[j] == order[j]);
                    }
                }
            }
        }
        proof {
            self.connections.lemma_order();
            assert forall|k: Seq<char>| #[trigger] self@.contains_key(k) implies before[k].alive(
                now,
            ) by {
                assert(self.connections.order().contains(k));
                let j = choose|j: int|
                    0 <= j < self.connections.order().len() && self.connections.order()[j] == k;
                assert(before[self.connections.order()[j]].alive(now));
            }
            assert(self@ =~= unexpired(before, now));
        }
    }

    /// Keeps what is left of a connection, in place of what was kept for the
    /// same client.
    pub fn save(
        &mut self,
        tracker: Tracker,
        subscriptions: NameSet,
        metrics: ConnectionEvents,
        session_expiry_interval: Option<Instant>,
    )
        requires
            old(self).wf(),
        ensures
            final(self).wf(),
            final(self)@ == old(self)@.insert(
                tracker@.id,
                buried(tracker@, subscriptions@, metrics@, session_expiry_interval),
            ),
    {
        let mut tracker = tracker;
        tracker.pause(PauseReason::Busy);
        let id = tracker.id.clone();
        self.connections.put(
            id,
            SavedState { tracker, subscriptions, metrics, expiry: session_expiry_interval },
        );
    }
}

} // verus!
