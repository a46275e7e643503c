//! What a client gets that subscribes.
use super::commit::after_retention;
use super::datalog::{replayed, retained_without, DataLogState, LogEntry, RetainedView};
use super::invariants::lemma_set_shape;
use super::laws::law_subscription;
use super::logs::{find_log, lemma_find_log, lemma_with_filter, log_index};
use super::messages::{AckView, ConnectionId, ConnectionState};
use super::requests::on;
use super::single::{lemma_subscribed_grows, lemma_subscribing_grows, lemma_subscribing_grows_by};
use super::state::{lists, RouterState, Subscribing, Turn};
use super::turns::{fresh, placed, unread};
use super::validate::subscription_verdict;
use crate::protocol::{Filter, Publish, PublishProperties, SubscribeReasonCode};
use crate::segments::laws::{appended, law_appended_are_read_back};
use crate::segments::log::{Entry, LogState, Offset};
use crate::topic::topic_matches;
use std::time::Instant;
use vstd::prelude::*;

verus! {

/// Whether a filter selects the topic that something was retained on.
pub open spec fn selected_by(filter: Seq<char>) -> spec_fn(RetainedView) -> bool {
    |one: RetainedView| topic_matches(one.topic, filter)
}

/// The publish that was retained.
pub open spec fn retained_publish() -> spec_fn(RetainedView) -> Publish {
    |one: RetainedView| one.publish
}

/// The publishes that were retained on topics that a filter selects, in the order
/// in which they came in.
pub open spec fn retained_for(retained: Seq<RetainedView>, filter: Seq<char>) -> Seq<Publish> {
    retained.filter(selected_by(filter)).map_values(retained_publish())
}

/// What a subscription puts into the log of its filter is what was retained on
/// topics that the filter selects, each once and in order, and nothing else.
pub proof fn law_replay_is_what_the_filter_selects(
    datalog: DataLogState,
    filter: Seq<char>,
    i: int,
)
    requires
        datalog.wf(),
        find_log(datalog.native, filter) is Some,
    ensures
        ({
            let items = datalog.replay_items(filter);
            let chosen = retained_for(datalog.retained, filter);
            &&& items.len() == chosen.len()
            &&& 0 <= i < items.len() ==> {
                &&& datalog.native[items[i].0 as int].filter == filter
                &&& items[i].0 < datalog.native.len()
                &&& items[i].1.publish == chosen[i]
                &&& items[i].1.expiry is None
                &&& exists|j: int|
                    0 <= j < datalog.retained.len() && topic_matches(
                        (#[trigger] datalog.retained[j]).topic,
                        filter,
                    ) && datalog.retained[j].publish == items[i].1.publish
            }
            &&& 0 <= i < datalog.retained.len() && topic_matches(datalog.retained[i].topic, filter)
                ==> exists|j: int|
                0 <= j < items.len() && (#[trigger] items[j]).1.publish
                    == datalog.retained[i].publish
        }),
{
    let retained = datalog.retained;
    let idx = find_log(datalog.native, filter)->0;
    lemma_find_log(datalog.native, filter);
    lemma_replayed_for(retained, filter, idx);
    let items = datalog.replay_items(filter);
    let picked = retained.filter(selected_by(filter));
    if 0 <= i < items.len() {
        retained.lemma_filter_pred(selected_by(filter), i);
        assert(picked.contains(picked[i]));
        retained.lemma_filter_contains_rev(selected_by(filter), picked[i]);
        let j = choose|j: int| 0 <= j < retained.len() && retained[j] == picked[i];
        assert(selected_by(filter)(picked[i]));
        assert(topic_matches(retained[j].topic, filter));
    }
    if 0 <= i < retained.len() && topic_matches(retained[i].topic, filter) {
        assert(selected_by(filter)(retained[i]));
        retained.lemma_filter_contains(selected_by(filter), i);
        assert(picked.contains(retained[i]));
        let j = choose|j: int| 0 <= j < picked.len() && picked[j] == retained[i];
        assert(items[j].1.publish == retained[i].publish);
    }
}

proof fn lemma_replayed_for(retained: Seq<RetainedView>, filter: Seq<char>, idx: usize)
    ensures
        replayed(retained, filter, idx).len() == retained_for(retained, filter).len(),
        forall|i: int|
            0 <= i < retained_for(retained, filter).len() ==> #[trigger] replayed(
                retained,
                filter,
                idx,
            )[i] == (
                idx,
                LogEntry { publish: retained_for(retained, filter)[i], expiry: None },
            ),
    decreases retained.len(),
{
    reveal(Seq::filter);
    if retained.len() > 0 {
        let shorter = retained.drop_last();
        lemma_replayed_for(shorter, filter, idx);
        let before = shorter.filter(selected_by(filter));
        let all = retained_for(retained, filter);
        let was = retained_for(shorter, filter);
        if topic_matches(retained.last().topic, filter) {
            assert(all =~= was.push(retained.last().publish));
        } else {
            assert(all =~= was);
        }
    }
}

/// No topic is retained on twice.
pub open spec fn one_per_topic(retained: Seq<RetainedView>) -> bool {
    forall|i: int, j: int|
        0 <= i < j < retained.len() ==> (#[trigger] retained[i]).topic != (
        #[trigger] retained[j]).topic
}

proof fn lemma_without_distinct(retained: Seq<RetainedView>, topic: Seq<char>)
    requires
        one_per_topic(retained),
    ensures
        one_per_topic(retained_without(retained, topic)),
        forall|i: int|
            0 <= i < retained_without(retained, topic).len() ==> (#[trigger] retained_without(
                retained,
                topic,
            )[i]).topic != topic && retained.contains(retained_without(retained, topic)[i]),
    decreases retained.len(),
{
    if retained.len() > 0 {
        let shorter = retained.drop_last();
        let last = retained.last();
        assert(one_per_topic(shorter)) by {
            assert forall|i: int, j: int| 0 <= i < j < shorter.len() implies (
            #[trigger] shorter[i]).topic != (#[trigger] shorter[j]).topic by {
                assert(retained[i].topic != retained[j].topic);
            }
        }
        lemma_without_distinct(shorter, topic);
        let before = retained_without(shorter, topic);
        let all = retained_without(retained, topic);
        assert forall|i: int| 0 <= i < all.len() implies (#[trigger] all[i]).topic != topic
            && retained.contains(all[i]) by {
            if i < before.len() {
                assert(shorter.contains(before[i]));
                let h = choose|h: int| 0 <= h < shorter.len() && shorter[h] == before[i];
                assert(retained[h] == all[i]);
            } else {
                assert(retained[retained.len() - 1] == all[i]);
            }
        }
        assert forall|i: int, j: int| 0 <= i < j < all.len() implies (#[trigger] all[i]).topic != (
        #[trigger] all[j]).topic by {
            if j < before.len() {
                assert(before[i].topic != before[j].topic);
            } else {
                assert(shorter.contains(before[i]));
                let h = choose|h: int| 0 <= h < shorter.len() && shorter[h] == before[i];
                assert(retained[h].topic != retained[retained.len() - 1].topic);
            }
        }
    }
}

/// However often is published to a topic, at most one publish is retained on it.
pub proof fn law_one_is_retained_per_topic(
    datalog: DataLogState,
    topic: Seq<char>,
    publish: Publish,
    props: Option<PublishProperties>,
)
    requires
        one_per_topic(datalog.retained),
    ensures
        one_per_topic(after_retention(datalog, topic, publish, props).retained),
        one_per_topic(DataLogState::new(datalog.config).retained),
{
    lemma_without_distinct(datalog.retained, topic);
}

/// What is appended to one log, and to no other.
proof fn lemma_append_one(
    datalog: DataLogState,
    items: Seq<(usize, LogEntry)>,
    entries: Seq<LogEntry>,
    idx: usize,
)
    requires
        idx < datalog.native.len(),
        items.len() == entries.len(),
        forall|i: int| 0 <= i < items.len() ==> #[trigger] items[i] == (idx, entries[i]),
    ensures
        ({
            let after = datalog.append_items(items);
            &&& after.native.len() == datalog.native.len()
            &&& after.native[idx as int].filter == datalog.native[idx as int].filter
            &&& after.native[idx as int].log == appended(
                datalog.native[idx as int].log,
                entries,
                |entry: LogEntry| LogEntry::weight(entry),
            )
            &&& forall|j: int|
                0 <= j < datalog.native.len() && j != idx ==> #[trigger] after.native[j]
                    == datalog.native[j]
            &&& after.retained == datalog.retained
            &&& after.config == datalog.config
        }),
    decreases items.len(),
{
    if items.len() > 0 {
        let shorter = items.drop_last();
        let less = entries.drop_last();
        assert forall|i: int| 0 <= i < shorter.len() implies #[trigger] shorter[i] == (
            idx,
            less[i],
        ) by {
            assert(shorter[i] == items[i]);
        }
        lemma_append_one(datalog, shorter, less, idx);
        assert(items[items.len() - 1] == (idx, entries[entries.len() - 1]));
    }
}

/// Publishes that are put behind a log are what a read from its end gives.
proof fn lemma_replayed_are_read(log: LogState<LogEntry>, chosen: Seq<Publish>, now: Instant)
    requires
        log.wf(),
        log.end() + chosen.len() <= u64::MAX,
    ensures
        ({
            let entries = Seq::new(
                chosen.len(),
                |i: int| LogEntry { publish: chosen[i], expiry: None },
            );
            let full = appended(log, entries, |entry: LogEntry| LogEntry::weight(entry));
            let given = full.read(log.next_offset(), u64::MAX).filter(fresh(now)).map_values(
                placed(),
            );
            &&& given.len() <= chosen.len()
            &&& given.map_values(|one: (Publish, Offset)| one.0) == chosen.skip(
                chosen.len() - given.len(),
            )
            &&& given.len() < chosen.len() ==> full.first_read(log.next_offset()) == full.begin()
        }),
{
    let entries = Seq::new(
        chosen.len(),
        |i: int| LogEntry { publish: chosen[i], expiry: None },
    );
    let weight = |entry: LogEntry| LogEntry::weight(entry);
    let full = appended(log, entries, weight);
    let cursor = log.next_offset();
    law_appended_are_read_back(log, entries, weight, 0, 0);
    let skip = full.first_read(cursor) - log.end();
    let read = full.read(cursor, u64::MAX);
    full.lemma_begin_end();
    assert(read.len() == entries.len() - skip);
    assert forall|k: int| 0 <= k < read.len() implies (#[trigger] read[k]).0 == entries[skip
        + k] by {
        law_appended_are_read_back(log, entries, weight, 0, skip + k);
    }
    lemma_all_fresh(read, now);
    let given = read.map_values(placed());
    assert(given.map_values(|one: (Publish, Offset)| one.0) =~= chosen.skip(
        chosen.len() - given.len(),
    ));
}

/// Who subscribes to a filter that is new to it is given what was retained on the
/// topics that the filter selects, in order, and what comes in from then on, and
/// nothing that came in before; and no other log changes.
pub proof fn law_subscriber_starts_with_the_retained(
    state: RouterState,
    id: ConnectionId,
    filter: Filter,
    now: Instant,
    j: int,
)
    requires
        state.inv(),
        state.live(id),
        !(filter.qos is ExactlyOnce),
        !state.connections.at(id).subscriptions.contains(filter.path@),
        state.datalog.ensure_log(filter.path@).native.len() <= usize::MAX,
        forall|i: int|
            0 <= i < state.datalog.native.len() ==> (#[trigger] state.datalog.native[i]).log.end()
                + state.datalog.retained.len() <= u64::MAX,
        state.datalog.retained.len() <= u64::MAX,
    ensures
        ({
            let after = state.subscribed(id, filter);
            let requests = after.scheduler.trackers.at(id).data_requests;
            let request = requests.last();
            let log = after.datalog.native[request.filter_idx as int].log;
            let chosen = retained_for(state.datalog.retained, filter.path@);
            let given = unread(after.datalog.native, request, now);
            let old = state.datalog.native.len() as int;
            &&& requests.len() == state.scheduler.trackers.at(id).data_requests.len() + 1
            &&& requests.drop_last() == state.scheduler.trackers.at(id).data_requests
            &&& request.filter@ == filter.path@
            &&& request.qos == if filter.qos is AtMostOnce {
                0u8
            } else {
                1u8
            }
            &&& request.filter_idx < after.datalog.native.len()
            &&& after.datalog.native[request.filter_idx as int].filter == filter.path@
            &&& given.len() <= chosen.len()
            &&& given.map_values(|one: (Publish, Offset)| one.0) == chosen.skip(
                chosen.len() - given.len(),
            )
            &&& given.len() < chosen.len() ==> log.first_read(request.cursor) == log.begin()
            &&& 0 <= j < old && state.datalog.native[j].filter != filter.path@
                ==> after.datalog.native[j] == state.datalog.native[j]
            &&& old <= after.datalog.native.len() <= old + 1
            &&& after.datalog.retained == state.datalog.retained
        }),
{
    let path = filter.path@;
    let before = state.datalog;
    let opened = before.ensure_log(path);
    let idx = log_index(before.native, path);
    state.lemma_ensured(path);
    law_subscription(state, id, filter, id, on(path));
    let after = state.subscribed(id, filter);
    let items = opened.replay_items(path);
    lemma_replayed_for(before.retained, path, idx);
    let chosen = retained_for(before.retained, path);
    before.retained.lemma_filter_len(selected_by(path));
    let entries = Seq::new(
        chosen.len(),
        |i: int| LogEntry { publish: chosen[i], expiry: None },
    );
    assert forall|i: int| 0 <= i < items.len() implies #[trigger] items[i] == (
        idx,
        entries[i],
    ) by {}
    lemma_append_one(opened, items, entries, idx);
    let log = opened.native[idx as int].log;
    let weight = |entry: LogEntry| LogEntry::weight(entry);
    lemma_find_log(before.native, path);
    assert(log.wf()) by {
        lemma_with_filter(before.native, path, before.config);
    }
    assert(log.end() + entries.len() <= u64::MAX);
    lemma_replayed_are_read(log, chosen, now);
    assert(appended(log, entries, weight) == after.datalog.native[idx as int].log);
    assert(after.scheduler.trackers.at(id).data_requests.drop_last()
        =~= state.scheduler.trackers.at(id).data_requests);
    if 0 <= j < before.native.len() && before.native[j].filter != path {
        assert(opened.native[j] == before.native[j]);
        assert(j != idx);
    }
}

/// What never expires is all fresh.
proof fn lemma_all_fresh(read: Seq<(LogEntry, Offset)>, now: Instant)
    requires
        forall|k: int| 0 <= k < read.len() ==> (#[trigger] read[k]).0.expiry is None,
    ensures
        read.filter(fresh(now)) == read,
    decreases read.len(),
{
    reveal(Seq::filter);
    if read.len() > 0 {
        let shorter = read.drop_last();
        assert forall|k: int| 0 <= k < shorter.len() implies (
        #[trigger] shorter[k]).0.expiry is None by {
            assert(shorter[k] == read[k]);
        }
        lemma_all_fresh(shorter, now);
        assert(read[read.len() - 1].0.expiry is None);
        assert(shorter.push(read.last()) =~= read);
    } else {
        assert(read.filter(fresh(now)) =~= read);
    }
}

/// Whether a client may subscribe to a filter: acks can be given for it, it does
/// not start with `$`, and it starts with the prefix of the client's tenant where
/// clients are held to that.
pub open spec fn acceptable(
    connection: ConnectionState,
    validate_tenant_prefix: bool,
    filter: Filter,
) -> bool {
    &&& filter.qos is AtMostOnce || filter.qos is AtLeastOnce
    &&& filter.path@.len() > 0 ==> filter.path@[0] != '$'
    &&& validate_tenant_prefix && connection.tenant_prefix is Some
        ==> connection.tenant_prefix->0@.is_prefix_of(filter.path@)
}

/// The filters that a packet names.
pub open spec fn paths(filters: Seq<Filter>) -> Set<Seq<char>> {
    Set::new(
        |f: Seq<char>| exists|i: int| 0 <= i < filters.len() && (#[trigger] filters[i]).path@ == f,
    )
}

proof fn lemma_paths(filters: Seq<Filter>, f: Seq<char>)
    requires
        filters.len() > 0,
    ensures
        paths(filters).contains(f) <==> paths(filters.drop_last()).contains(f)
            || filters.last().path@ == f,
{
    let shorter = filters.drop_last();
    if paths(shorter).contains(f) {
        let i = choose|i: int| 0 <= i < shorter.len() && (#[trigger] shorter[i]).path@ == f;
        assert(filters[i].path@ == f);
    }
    if paths(filters).contains(f) {
        let i = choose|i: int| 0 <= i < filters.len() && (#[trigger] filters[i]).path@ == f;
        if i < shorter.len() {
            assert(shorter[i].path@ == f);
        }
    }
    assert(filters[filters.len() - 1].path@ == filters.last().path@);
}

/// What a row of acceptable filters makes of a router.
proof fn lemma_accepted(
    from: Subscribing,
    id: ConnectionId,
    filters: Seq<Filter>,
    f: Seq<char>,
    other: ConnectionId,
)
    requires
        from.state.inv(),
        from.state.live(id),
        !from.refused,
        from.codes.len() == 0,
        from.filters(id, filters).state.fits(),
        forall|i: int|
            0 <= i < filters.len() ==> acceptable(
                from.state.connections.at(id),
                from.state.config.validate_tenant_prefix,
                #[trigger] filters[i],
            ),
    ensures
        ({
            let done = from.filters(id, filters);
            let before = from.state;
            let after = done.state;
            let old = before.connections.at(id);
            &&& !done.refused
            &&& after.inv()
            &&& after.live(id)
            &&& after.fits()
            &&& after.config == before.config
            &&& after.obufs == before.obufs
            &&& after.ackslog == before.ackslog
            &&& after.connections.at(id) == ConnectionState {
                subscriptions: old.subscriptions.union(paths(filters)),
                ..old
            }
            &&& lists(after.subscription_map, f, other) <==> lists(
                before.subscription_map,
                f,
                other,
            ) || (other == id && paths(filters).contains(f))
            &&& done.codes.len() == filters.len()
            &&& forall|i: int|
                0 <= i < filters.len() ==> #[trigger] done.codes[i] == if filters[i].qos
                    is AtMostOnce {
                    SubscribeReasonCode::QoS0
                } else {
                    SubscribeReasonCode::QoS1
                }
            &&& before.live(other) ==> after.asked(other, on(f)) == before.asked(other, on(f))
                + if other == id && paths(filters).contains(f) && !old.subscriptions.contains(
                f,
            ) {
                1nat
            } else {
                0nat
            }
            &&& other != id && before.live(other) ==> after.connections.at(other)
                == before.connections.at(other)
        }),
    decreases filters.len(),
{
    let before = from.state;
    let old = before.connections.at(id);
    assert(before.connections.has(id));
    if filters.len() == 0 {
        assert(paths(filters) =~= Set::<Seq<char>>::empty());
        assert(old.subscriptions.union(paths(filters)) =~= old.subscriptions);
    } else {
        let shorter = filters.drop_last();
        let last = filters.last();
        let mid = from.filters(id, shorter);
        lemma_subscribed_grows(mid.state, id, last);
        assert forall|i: int| 0 <= i < shorter.len() implies acceptable(
            from.state.connections.at(id),
            from.state.config.validate_tenant_prefix,
            #[trigger] shorter[i],
        ) by {
            assert(shorter[i] == filters[i]);
        }
        assert(acceptable(
            old,
            before.config.validate_tenant_prefix,
            filters[filters.len() - 1],
        ));
        assert(mid.state.fits()) by {
            lemma_subscribing_grows(from, id, shorter);
        }
        lemma_accepted(from, id, shorter, f, other);
        lemma_accepted(from, id, shorter, last.path@, id);
        assert forall|g: Seq<char>| #[trigger] paths(filters).contains(g) <==> paths(
            shorter,
        ).contains(g) || g == last.path@ by {
            lemma_paths(filters, g);
        }
        assert(paths(filters) =~= paths(shorter).insert(last.path@));
        let after = mid.state.subscribed(id, last);
        assert(subscription_verdict(
            mid.state.connections.at(id),
            mid.state.config.validate_tenant_prefix,
            last,
        ) is Ok);
        mid.state.lemma_subscribed(id, last);
        law_subscription(mid.state, id, last, other, on(f));
        assert(mid.state.connections.has(id));
        let connection = mid.state.connections.at(id);
        lemma_set_shape(
            mid.state.connections,
            id,
            ConnectionState {
                subscriptions: connection.subscriptions.insert(last.path@),
                ..connection
            },
        );
        assert(after.connections.at(id).subscriptions =~= old.subscriptions.union(
            paths(filters),
        ));
        if mid.state.live(other) {
            assert(mid.state.connections.has(other));
        }
        let done = from.filters(id, filters);
        assert forall|i: int| 0 <= i < filters.len() implies #[trigger] done.codes[i]
            == if filters[i].qos is AtMostOnce {
            SubscribeReasonCode::QoS0
        } else {
            SubscribeReasonCode::QoS1
        } by {
            if i < shorter.len() {
                assert(done.codes[i] == mid.codes[i]);
                assert(shorter[i] == filters[i]);
            }
        }
    }
}

/// A packet that subscribes to filters is looked at filter by filter, up to the
/// first that is refused. To each filter before that the connection is then
/// subscribed, listed under it and, where the filter is new to it, has one more
/// request for it. It is answered with one ack, under the packet id, that holds
/// one code for each such filter, the quality of service that was asked for.
/// Where a filter was refused the connection ends. No other subscription changes,
/// and nothing of other connections.
pub proof fn law_filters_are_subscribed_to(
    turn: Turn,
    id: ConnectionId,
    client_id: Seq<char>,
    pkid: u16,
    filters: Seq<Filter>,
    m: int,
    i: int,
    f: Seq<char>,
    other: ConnectionId,
)
    requires
        turn.ok(id),
        turn.subscribe(id, client_id, pkid, filters).state.fits(),
        0 <= m <= filters.len(),
        forall|k: int|
            0 <= k < m ==> acceptable(
                turn.state.connections.at(id),
                turn.state.config.validate_tenant_prefix,
                #[trigger] filters[k],
            ),
        m < filters.len() ==> !acceptable(
            turn.state.connections.at(id),
            turn.state.config.validate_tenant_prefix,
            filters[m],
        ),
    ensures
        ({
            let before = turn.state;
            let end = turn.subscribe(id, client_id, pkid, filters);
            let after = end.state;
            let old = before.connections.at(id);
            let new = after.connections.at(id);
            let acks = before.ackslog.at(id).committed;
            let left = after.ackslog.at(id).committed;
            &&& 0 <= i < m ==> {
                &&& lists(after.subscription_map, filters[i].path@, id)
                &&& new.subscriptions.contains(filters[i].path@)
            }
            &&& left.len() == acks.len() + 1
            &&& acks.is_prefix_of(left)
            &&& left.last() matches AckView::SubAck(to, codes)
            &&& to == pkid
            &&& codes.len() == m
            &&& 0 <= i < m ==> codes[i] == if filters[i].qos is AtMostOnce {
                SubscribeReasonCode::QoS0
            } else {
                SubscribeReasonCode::QoS1
            }
            &&& end.disconnect <==> turn.disconnect || m < filters.len()
            &&& end.stopped == turn.stopped
            &&& end.force_ack
            &&& end.new_data
            &&& new == ConnectionState { subscriptions: new.subscriptions, ..old }
            &&& new.subscriptions.contains(f) <==> old.subscriptions.contains(f) || paths(
                filters.take(m),
            ).contains(f)
            &&& lists(after.subscription_map, f, other) <==> lists(
                before.subscription_map,
                f,
                other,
            ) || (other == id && paths(filters.take(m)).contains(f))
            &&& before.live(other) ==> after.asked(other, on(f)) == before.asked(other, on(f))
                + if other == id && paths(filters.take(m)).contains(f)
                && !old.subscriptions.contains(f) {
                1nat
            } else {
                0nat
            }
            &&& other != id && before.live(other) ==> {
                &&& after.connections.at(other) == before.connections.at(other)
                &&& after.ackslog.at(other) == before.ackslog.at(other)
            }
        }),
{
    let from = Subscribing { state: turn.state, codes: Seq::empty(), refused: false };
    let some = filters.take(m);
    let done = from.filters(id, filters);
    lemma_subscribing_grows_by(from, id, filters, m);
    assert forall|k: int| 0 <= k < some.len() implies acceptable(
        turn.state.connections.at(id),
        turn.state.config.validate_tenant_prefix,
        #[trigger] some[k],
    ) by {
        assert(some[k] == filters[k]);
    }
    lemma_accepted(from, id, some, f, id);
    lemma_accepted(from, id, some, f, other);
    if m < filters.len() {
        let more = filters.take(m + 1);
        assert(more.drop_last() =~= some);
        assert(more.last() == filters[m]);
        assert(from.filters(id, more).refused);
        from.lemma_refused(id, filters, m + 1);
    } else {
        assert(some =~= filters);
    }
    assert(done.state == from.filters(id, some).state);
    assert(done.codes == from.filters(id, some).codes);
    assert(turn.state.connections.has(id));
    assert(turn.state.ackslog.has(id));
    if turn.state.live(other) {
        assert(turn.state.connections.has(other));
        assert(turn.state.ackslog.has(other));
    }
    lemma_set_shape(
        turn.state.ackslog,
        id,
        turn.state.ackslog.at(id).commit(AckView::SubAck(pkid, done.codes)),
    );
    if 0 <= i < m {
        assert(some[i] == filters[i]);
        assert(paths(some).contains(filters[i].path@));
        lemma_accepted(from, id, some, filters[i].path@, id);
    }
    let after = turn.subscribe(id, client_id, pkid, filters).state;
    assert(after.asked(other, on(f)) == done.state.asked(other, on(f)));
}

} // verus!
