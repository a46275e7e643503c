//! How a publish gets into the logs.
use super::datalog::{spread, DataLog, DataLogState, Expiry, LogEntry};
use super::errors::{view_result, RouterError, RouterErrorView};
use super::logs::{lemma_matching, log_index, matching};
use super::messages::{Connection, ConnectionId, ConnectionState, DataRequest};
use super::validate::outside_tenant;
use crate::arena::Arena;
use crate::payload::{bytes_content, bytes_len, bytes_slice, utf8_failure, utf8_text};
use crate::protocol::{Publish, PublishProperties};
use crate::segments::log::Offset;
use crate::text;
use std::collections::VecDeque;
use std::time::Instant;
use vstd::prelude::*;
use vstd::utf8::{decode_utf8, valid_utf8};

verus! {

/// What becomes of a publish.
#[verifier::ext_equal]
pub struct Appended {
    pub datalog: DataLogState,
    /// Those who waited for it.
    pub woken: Seq<(ConnectionId, DataRequest)>,
    pub outcome: Result<Offset, RouterErrorView>,
}

/// When a publish with these properties expires, where it came in now.
pub open spec fn publish_expiry(props: Option<PublishProperties>, now: Instant) -> Option<Expiry> {
    match props {
        Some(props) => match props.message_expiry_interval {
            Some(secs) => Some(Expiry { since: now, secs }),
            None => None,
        },
        None => None,
    }
}

/// The logs after a publish was looked at for being retained. An empty payload
/// clears what was retained on the topic.
pub open spec fn after_retention(
    datalog: DataLogState,
    topic: Seq<char>,
    publish: Publish,
    props: Option<PublishProperties>,
) -> DataLogState {
    if bytes_content(publish.payload).len() == 0 {
        datalog.forget(topic)
    } else if publish.retain {
        datalog.retain(topic, publish, props)
    } else {
        datalog
    }
}

/// A publish goes to each log whose filter selects its topic. Where there is
/// none, a client with dynamic filters gets a log for the topic itself.
pub open spec fn append_publish(
    datalog: DataLogState,
    connection: ConnectionState,
    publish: Publish,
    props: Option<PublishProperties>,
    now: Instant,
) -> Appended {
    let bytes = bytes_content(publish.topic);
    let topic = decode_utf8(bytes);
    if !valid_utf8(bytes) {
        Appended {
            datalog,
            woken: Seq::empty(),
            outcome: Err(RouterErrorView::NonUtf8Topic(utf8_failure(bytes))),
        }
    } else if outside_tenant(connection, datalog.config.validate_tenant_prefix, topic) {
        Appended {
            datalog,
            woken: Seq::empty(),
            outcome: Err(RouterErrorView::BadTenant(connection.tenant_prefix->0@, topic)),
        }
    } else {
        let kept = after_retention(datalog, topic, publish, props);
        let entry = LogEntry {
            publish: Publish { retain: false, ..publish },
            expiry: publish_expiry(props, now),
        };
        let idxs = matching(kept.native, topic);
        if idxs.len() > 0 {
            append_everywhere(kept, idxs, entry)
        } else if connection.dynamic_filters {
            append_everywhere(
                kept.ensure_log(topic),
                seq![log_index(kept.native, topic)],
                entry,
            )
        } else {
            Appended {
                datalog: kept,
                woken: Seq::empty(),
                outcome: Err(RouterErrorView::NoMatchingFilters(topic)),
            }
        }
    }
}

pub open spec fn append_everywhere(
    datalog: DataLogState,
    idxs: Seq<usize>,
    entry: LogEntry,
) -> Appended {
    let items = spread(idxs, entry);
    Appended {
        datalog: datalog.append_items(items),
        woken: datalog.woken(items),
        outcome: Ok(datalog.last_offset(items)),
    }
}

/// Puts an entry into several logs. Gives the place just behind it in the last
/// of them.
fn append_to_logs(
    datalog: &mut DataLog,
    idxs: &Vec<usize>,
    entry: &LogEntry,
    notifications: &mut VecDeque<(ConnectionId, DataRequest)>,
) -> (offset: Offset)
    requires
        old(datalog).wf(),
        forall|k: int| 0 <= k < idxs@.len() ==> (#[trigger] idxs@[k]) < old(datalog)@.native.len(),
    ensures
        final(datalog).wf(),
        final(datalog)@ == append_everywhere(old(datalog)@, idxs@, *entry).datalog,
        final(notifications)@ == old(notifications)@ + append_everywhere(
            old(datalog)@,
            idxs@,
            *entry,
        ).woken,
        append_everywhere(old(datalog)@, idxs@, *entry).outcome == Ok::<Offset, RouterErrorView>(
            offset,
        ),
{
    let ghost before = datalog@;
    let ghost told = notifications@;
    let ghost items = spread(idxs@, *entry);
    let mut offset: Offset = (0, 0);
    let mut i: usize = 0;
    assert(items.take(0) =~= Seq::<(usize, LogEntry)>::empty());
    while i < idxs.len()
        invariant
            i <= idxs.len(),
            items == spread(idxs@, *entry),
            before.wf(),
            datalog.wf(),
            forall|k: int| 0 <= k < idxs@.len() ==> (#[trigger] idxs@[k]) < before.native.len(),
            datalog@.native.len() == before.native.len(),
            datalog@ == before.append_items(items.take(i as int)),
            notifications@ == told + before.woken(items.take(i as int)),
            offset == before.last_offset(items.take(i as int)),
        decreases idxs.len() - i,
    {
        assert(items.take(i + 1).drop_last() =~= items.take(i as int));
        let copy = LogEntry { publish: entry.publish.clone(), expiry: entry.expiry };
        offset = datalog.append(idxs[i], copy, notifications);
        i = i + 1;
    }
    assert(items.take(i as int) =~= items);
    offset
}

/// Takes in a publish of a connection: checks its topic, retains it where that
/// is asked for, and puts it into the logs. Those who waited for it are added to
/// the ones that are to be told.
pub fn append_to_commitlog(
    id: ConnectionId,
    publish: Publish,
    publish_props: Option<PublishProperties>,
    datalog: &mut DataLog,
    notifications: &mut VecDeque<(ConnectionId, DataRequest)>,
    connections: &Arena<Connection>,
    now: Instant,
) -> (result: Result<Offset, RouterError>)
    requires
        old(datalog).wf(),
        connections@.has(id),
    ensures
        final(datalog).wf(),
        final(datalog)@ == append_publish(
            old(datalog)@,
            connections@.at(id),
            publish,
            publish_props,
            now,
        ).datalog,
        final(notifications)@ == old(notifications)@ + append_publish(
            old(datalog)@,
            connections@.at(id),
            publish,
            publish_props,
            now,
        ).woken,
        view_result(result) == append_publish(
            old(datalog)@,
            connections@.at(id),
            publish,
            publish_props,
            now,
        ).outcome,
{
    let ghost before = datalog@;
    let ghost told = notifications@;
    assert(told + Seq::<(ConnectionId, DataRequest)>::empty() =~= told);
    let mut publish = publish;
    let topic = match utf8_text(bytes_slice(&publish.topic)) {
        Ok(topic) => topic.to_owned(),
        Err(error) => {
            return Err(RouterError::NonUtf8Topic(error));
        },
    };
    let connection = connections.at(id);
    if datalog.config.validate_tenant_prefix {
        if let Some(tenant_prefix) = &connection.tenant_prefix {
            if !text::starts_with(topic.as_str(), tenant_prefix.as_str()) {
                return Err(RouterError::BadTenant(tenant_prefix.clone(), topic));
            }
        }
    }
    let expiry = match publish_props {
        Some(props) => match props.message_expiry_interval {
            Some(secs) => Some(Expiry { since: now, secs }),
            None => None,
        },
        None => None,
    };
    if bytes_len(&publish.payload) == 0 {
        datalog.remove_from_retained_publishes(&topic);
    } else if publish.retain {
        datalog.insert_to_retained_publishes(publish.clone(), publish_props, topic.clone());
    }
    let ghost kept = datalog@;
    assert(kept == after_retention(before, topic@, publish, publish_props));
    publish.retain = false;
    let idxs = match datalog.matches(topic.as_str()) {
        Some(idxs) => {
            proof {
                lemma_matching(kept.native, topic@);
            }
            idxs
        },
        None => {
            if !connection.dynamic_filters {
                return Err(RouterError::NoMatchingFilters(topic));
            }
            let (idx, _cursor) = datalog.next_native_offset(topic.as_str());
            let idxs = vec![idx];
            assert(idxs@ =~= seq![log_index(kept.native, topic@)]);
            idxs
        },
    };
    let entry = LogEntry { publish, expiry };
    Ok(append_to_logs(datalog, &idxs, &entry, notifications))
}

} // verus!
