use bytes::Bytes;
use rumqttd_router::arena::Arena;
use rumqttd_router::clock::{instant_secs_since, time_text, wall_time};
use rumqttd_router::protocol::{
    ConnAck, ConnectReturnCode, Filter, PubComp, PubCompReason, PubRec, PubRecReason, Publish,
    PublishProperties, QoS,
};
use rumqttd_router::registry::{IdSet, NameSet, Registry};
use rumqttd_router::router::alertlog::{append_to_alertlog, Alert, AlertEvent, AlertLog};
use rumqttd_router::router::commit::append_to_commitlog;
use rumqttd_router::router::datalog::DataLog;
use rumqttd_router::router::delivery::{
    ack_device_data, forward_device_data, ConsumeStatus,
};
use rumqttd_router::router::errors::RouterError;
use rumqttd_router::router::graveyard::{Graveyard, SavedState};
use rumqttd_router::router::iobufs::Outgoing;
use rumqttd_router::router::logs::AckLog;
use rumqttd_router::router::messages::{
    Ack, Connection, ConnectionEvents, DataRequest, Notification, RouterConfig,
};
use rumqttd_router::router::scheduler::{
    PauseReason, ScheduleReason, Scheduler, Status, Tracker,
};
use rumqttd_router::router::validate::{validate_clientid, validate_subscription};
use rumqttd_router::segments::{CommitLog, Position, Storage};
use rumqttd_router::{text, topic};
use std::collections::VecDeque;
use std::time::{Duration, Instant, SystemTime};

fn config() -> RouterConfig {
    RouterConfig {
        max_segment_size: 1024,
        max_mem_segments: 10,
        max_read_len: 128,
        max_connections: 8,
        validate_tenant_prefix: true,
    }
}

fn connection(tenant_prefix: Option<&str>, dynamic_filters: bool) -> Connection {
    Connection {
        tenant_prefix: tenant_prefix.map(|p| p.to_string()),
        clean: true,
        dynamic_filters,
        last_will: None,
        subscriptions: NameSet::new(),
        events: ConnectionEvents::new(),
    }
}

fn publish(topic: &[u8], payload: &[u8]) -> Publish {
    Publish {
        dup: false,
        qos: QoS::AtMostOnce,
        retain: false,
        topic: Bytes::copy_from_slice(topic),
        pkid: 0,
        payload: Bytes::copy_from_slice(payload),
    }
}

fn request(filter: &str, filter_idx: usize, qos: u8) -> DataRequest {
    DataRequest {
        filter: filter.to_string(),
        filter_idx,
        qos,
        cursor: (0, 0),
        read_count: 0,
        max_count: 100,
    }
}

#[test]
fn saved_session_is_retrieved_once() {
    let mut graveyard = Graveyard::new();
    let mut tracker = Tracker::new("a".to_string());
    tracker.register_data_request(request("t", 0, 1));
    tracker.status = Status::Ready;
    let mut subscriptions = NameSet::new();
    subscriptions.insert("t".to_string());
    graveyard.save(tracker, subscriptions, ConnectionEvents::new(), None);
    assert!(graveyard.retrieve("b").is_none());
    let saved = graveyard.retrieve("a").unwrap();
    assert_eq!(saved.tracker.id, "a");
    assert_eq!(saved.tracker.status, Status::Paused(PauseReason::Busy));
    assert_eq!(saved.tracker.data_requests.len(), 1);
    assert!(saved.subscriptions.contains(&"t".to_string()));
    assert!(saved.expiry.is_none());
    assert!(graveyard.retrieve("a").is_none());
}

#[test]
fn expired_sessions_are_dropped() {
    let start = Instant::now();
    let expiry = start + Duration::from_secs(5);
    for (after, kept) in [(4_999, true), (5_000, false), (6_000, false)] {
        let mut graveyard = Graveyard::new();
        for id in ["a", "b"] {
            graveyard.save(
                Tracker::new(id.to_string()),
                NameSet::new(),
                ConnectionEvents::new(),
                Some(expiry),
            );
        }
        let now = start + Duration::from_millis(after);
        assert_eq!(graveyard.retrieve_at("a", now).is_some(), kept);
        // the others went at the same time
        assert_eq!(graveyard.retrieve_at("b", start).is_some(), kept);
    }
    let mut graveyard = Graveyard::new();
    graveyard.save(
        Tracker::new("a".to_string()),
        NameSet::new(),
        ConnectionEvents::new(),
        Some(Instant::now() + Duration::from_secs(3600)),
    );
    assert!(graveyard.retrieve("a").is_some());
}

#[test]
fn cleaning_again_changes_nothing_more() {
    let start = Instant::now();
    let at = |secs: u64| start + Duration::from_secs(secs);
    let filled = || {
        let mut graveyard = Graveyard::new();
        for (id, expiry) in [("a", Some(at(5))), ("b", Some(at(10))), ("c", None)] {
            graveyard.save(
                Tracker::new(id.to_string()),
                NameSet::new(),
                ConnectionEvents::new(),
                expiry,
            );
        }
        graveyard
    };
    for times in [vec![7, 12], vec![12], vec![12, 12], vec![7], vec![7, 7]] {
        let last = *times.last().unwrap();
        let mut graveyard = filled();
        for secs in times {
            graveyard.cleanup_expired_sessions(at(secs));
        }
        assert!(graveyard.retrieve_at("a", start).is_none());
        assert_eq!(graveyard.retrieve_at("b", start).is_some(), last < 10);
        assert!(graveyard.retrieve_at("c", start).is_some());
    }
}

#[test]
fn later_session_replaces_the_saved_one() {
    let mut graveyard = Graveyard::new();
    for n in 0..2usize {
        let mut tracker = Tracker::new("a".to_string());
        for _ in 0..n {
            tracker.register_data_request(request("t", 0, 0));
        }
        graveyard.save(tracker, NameSet::new(), ConnectionEvents::new(), None);
    }
    assert_eq!(graveyard.retrieve("a").unwrap().tracker.data_requests.len(), 1);
}

#[test]
fn fresh_saved_state_is_empty() {
    let state = SavedState::new("a".to_string());
    assert_eq!(state.tracker.id, "a");
    assert_eq!(state.tracker.data_requests.len(), 0);
    assert!(!state.subscriptions.contains(&"a".to_string()));
    assert_eq!(state.metrics.events.len(), 0);
    assert!(state.expiry.is_none());
}

#[test]
fn sizes_of_what_is_stored() {
    assert_eq!(Bytes::from_static(b"hello").size(), 5);
    assert_eq!(vec![1u8, 2, 3].size(), 3);
    let props = PublishProperties { message_expiry_interval: Some(1) };
    assert_eq!((publish(b"topic", b"payload"), None).size(), 4 + 5 + 7);
    assert_eq!((publish(b"", b""), Some(props)).size(), 4);
}

#[test]
fn topics_and_filters() {
    for (topic, filter, expected) in [
        ("a/b/c", "a/b/c", true),
        ("a/b/c", "a/+/c", true),
        ("a/b/c", "a/#", true),
        ("a", "a/#", true),
        ("a/b/c", "#", true),
        ("a/b/c", "a/b", false),
        ("a/b", "a/b/c", false),
        ("a/b/c", "+/+", false),
        ("a//c", "a/+/c", true),
        ("$sys/a", "#", false),
        ("$sys/a", "$sys/a", false),
        ("a/#", "a/#", true),
        ("+/b", "+/b", true),
        ("", "", true),
        ("a/#", "a/b", false),
        ("", "#", true),
        ("", "+", true),
    ] {
        assert_eq!(topic::matches(topic, filter), expected, "{topic} {filter}");
    }
}

#[test]
fn numbers_and_times_as_text() {
    assert_eq!(text::decimal(0), "0");
    assert_eq!(text::decimal(10), "10");
    assert_eq!(text::decimal(1_234_567_890), "1234567890");
    assert_eq!(text::decimal(u128::MAX), u128::MAX.to_string());
    assert_eq!(time_text(Ok(1_700_000_000_123)), "1700000000123");
    assert_eq!(time_text(Err("late".to_string())), "Time error = late");
    assert!(text::starts_with("hello", "he"));
    assert!(!text::starts_with("he", "hello"));
    assert!(text::contains("hello", 'l'));
    assert!(!text::contains("hello", 'x'));
    assert_eq!(text::join("a", "b"), "ab");
}

#[test]
fn wall_clock_as_text() {
    assert_eq!(wall_time(Ok(Duration::from_micros(1_234_567))), "1234");
    let error = SystemTime::UNIX_EPOCH.duration_since(SystemTime::now()).unwrap_err();
    let expected = format!("Time error = {error:?}");
    assert_eq!(wall_time(Err(error)), expected);
}

#[test]
fn seconds_between_instants() {
    let start = Instant::now();
    let later = start + Duration::from_millis(2_999);
    assert_eq!(instant_secs_since(later, start), 2);
    assert_eq!(instant_secs_since(start, later), 0);
}

#[test]
fn arena_takes_the_last_released_key_again() {
    let mut arena: Arena<u64> = Arena::with_capacity(4);
    assert_eq!(arena.insert(10), 0);
    assert_eq!(arena.insert(11), 1);
    assert_eq!(arena.insert(12), 2);
    assert_eq!(arena.remove(0), 10);
    assert_eq!(arena.remove(1), 11);
    assert_eq!(arena.len(), 1);
    assert!(arena.has_room());
    assert!(!arena.contains(1));
    assert_eq!(arena.insert(20), 1);
    assert_eq!(arena.insert(21), 0);
    assert_eq!(arena.insert(22), 3);
    *arena.at_mut(3) = 23;
    assert_eq!(*arena.at(3), 23);
    assert_eq!(arena.slots(), 4);
}

#[test]
fn registries_and_sets() {
    let mut registry: Registry<u64> = Registry::new();
    registry.put("a".to_string(), 1);
    registry.put("b".to_string(), 2);
    registry.put("a".to_string(), 3);
    assert_eq!(registry.len(), 2);
    assert_eq!(registry.get(&"a".to_string()), Some(&3));
    assert_eq!(registry.remove(&"a".to_string()), Some(3));
    assert_eq!(registry.remove(&"a".to_string()), None);
    assert!(!registry.contains(&"a".to_string()));
    let mut names = NameSet::new();
    assert!(names.insert("x".to_string()));
    assert!(!names.insert("x".to_string()));
    assert!(names.insert("y".to_string()));
    assert_eq!(names.names(), vec!["x".to_string(), "y".to_string()]);
    assert!(names.remove(&"x".to_string()));
    assert!(!names.remove(&"x".to_string()));
    assert_eq!(names.copy().names(), vec!["y".to_string()]);
    let mut ids = IdSet::new();
    ids.insert(4);
    ids.insert(4);
    assert!(ids.contains(4));
    assert!(ids.remove(4));
    assert!(!ids.remove(4));
}

#[test]
fn log_is_read_back_in_order() {
    let mut alerts = AlertLog::new(config());
    let (_, start) = alerts.next_native_offset("/alerts/#");
    assert_eq!(start, (0, 0));
    for i in 0..5 {
        let alert = Alert::event(format!("{i}"), AlertEvent::Connect);
        let offset = append_to_alertlog(alert, &mut alerts).unwrap();
        assert_eq!(offset, (0, i + 1));
    }
    let filter = "/alerts/#".to_string();
    let (first, next) = alerts.native_readv(&filter, start, 2);
    let (rest, end) = alerts.native_readv(&filter, next, 100);
    assert_eq!(first.len(), 2);
    assert_eq!(rest.len(), 3);
    assert_eq!(next, (0, 2));
    assert_eq!(end, (0, 5));
    assert_eq!(rest[0].0, Alert::event("2".to_string(), AlertEvent::Connect));
    assert_eq!(rest[0].1, (0, 2));
    // where no filter selects the topic nothing is kept
    let mut none = AlertLog::new(config());
    let alert = Alert::event("a".to_string(), AlertEvent::Connect);
    assert_eq!(append_to_alertlog(alert, &mut none).unwrap(), (0, 0));
}

#[test]
fn old_segments_are_dropped() {
    let mut log: CommitLog<Alert> = CommitLog::new(1, 2);
    for i in 0..4 {
        let alert = Alert::event(format!("{i}"), AlertEvent::Connect);
        assert_eq!(log.append(alert), (i, i + 1));
    }
    assert_eq!(log.next_offset(), (3, 4));
    let (position, read) = log.readv((0, 0), 1);
    assert_eq!(position, Position::Next { start: (2, 2), end: (3, 3) });
    assert_eq!(read.len(), 1);
    assert_eq!(read[0].1, (2, 2));
    let (position, read) = log.readv((3, 3), 10);
    assert_eq!(position, Position::Done { start: (3, 3), end: (3, 4) });
    assert_eq!(read.len(), 1);
    assert_eq!(log.last(), Some(Alert::event("3".to_string(), AlertEvent::Connect)));
}

#[test]
fn publishes_and_their_errors() {
    let now = Instant::now();
    let mut datalog = DataLog::new(config());
    let mut notifications = VecDeque::new();
    let mut connections: Arena<Connection> = Arena::with_capacity(4);
    let plain = connections.insert(connection(None, false));
    let tenant = connections.insert(connection(Some("/one/"), false));
    let dynamic = connections.insert(connection(None, true));
    let (idx, _) = datalog.next_native_offset("t/+");
    datalog.park(7, request("t/+", idx, 0));

    let result = append_to_commitlog(
        plain,
        publish(&[b't', b'/', 0xff, 0xfe], b"x"),
        None,
        &mut datalog,
        &mut notifications,
        &connections,
        now,
    );
    match result {
        Err(RouterError::NonUtf8Topic(error)) => {
            assert_eq!(error.valid_up_to(), 2);
            assert_eq!(error.error_len(), Some(1));
        }
        other => panic!("{other:?}"),
    }

    let result = append_to_commitlog(
        tenant,
        publish(b"/two/x", b"x"),
        None,
        &mut datalog,
        &mut notifications,
        &connections,
        now,
    );
    match result {
        Err(RouterError::BadTenant(prefix, topic)) => {
            assert_eq!(prefix, "/one/");
            assert_eq!(topic, "/two/x");
        }
        other => panic!("{other:?}"),
    }

    let result = append_to_commitlog(
        plain,
        publish(b"u", b"x"),
        None,
        &mut datalog,
        &mut notifications,
        &connections,
        now,
    );
    assert!(matches!(result, Err(RouterError::NoMatchingFilters(topic)) if topic == "u"));
    assert_eq!(notifications.len(), 0);

    let result = append_to_commitlog(
        plain,
        publish(b"t/1", b"x"),
        None,
        &mut datalog,
        &mut notifications,
        &connections,
        now,
    );
    assert_eq!(result.unwrap(), (0, 1));
    assert_eq!(notifications.len(), 1);
    assert_eq!(notifications[0].0, 7);

    let result = append_to_commitlog(
        dynamic,
        publish(b"new", b"x"),
        None,
        &mut datalog,
        &mut notifications,
        &connections,
        now,
    );
    assert_eq!(result.unwrap(), (0, 1));
    assert_eq!(datalog.next_native_offset("new").1, (0, 1));
    assert_eq!(datalog.next_native_offset("t/+").1, (0, 1));

    // now anyone can publish there, and gets behind it
    let result = append_to_commitlog(
        plain,
        publish(b"new", b"y"),
        None,
        &mut datalog,
        &mut notifications,
        &connections,
        now,
    );
    assert_eq!(result.unwrap(), (0, 2));
    assert_eq!(datalog.next_native_offset("new").1, (0, 2));
    assert_eq!(datalog.next_native_offset("t/+").1, (0, 1));

    // but no filter selects a topic like this one
    for (id, accepted) in [(dynamic, true), (plain, false)] {
        let result = append_to_commitlog(
            id,
            publish(b"$new", b"x"),
            None,
            &mut datalog,
            &mut notifications,
            &connections,
            now,
        );
        assert_eq!(result.is_ok(), accepted);
    }
}

#[test]
fn reads_go_on_past_what_has_expired() {
    let now = Instant::now();
    let later = now + Duration::from_secs(10);
    let mut datalog = DataLog::new(RouterConfig { max_read_len: 1, ..config() });
    let mut alertlog = AlertLog::new(config());
    let mut notifications = VecDeque::new();
    let mut connections: Arena<Connection> = Arena::with_capacity(1);
    let id = connections.insert(connection(None, false));
    let (idx, _) = datalog.next_native_offset("t");
    let short = Some(PublishProperties { message_expiry_interval: Some(5) });
    for (payload, props) in [(b"1", short), (b"2", short), (b"3", None), (b"4", short), (b"5", None)]
    {
        append_to_commitlog(
            id,
            publish(b"t", payload),
            props,
            &mut datalog,
            &mut notifications,
            &connections,
            now,
        )
        .unwrap();
    }
    let mut outgoing = Outgoing::new("a".to_string());
    let mut ask = request("t", idx, 0);
    let status = forward_device_data(&mut ask, &datalog, &mut outgoing, &mut alertlog, later);
    assert_eq!(status, ConsumeStatus::PartialRead);
    assert_eq!(ask.cursor, (0, 3));
    assert_eq!(ask.read_count, 1);
    assert_eq!(outgoing.collect().len(), 1);
    let status = forward_device_data(&mut ask, &datalog, &mut outgoing, &mut alertlog, later);
    assert_eq!(status, ConsumeStatus::FilterCaughtup);
    assert_eq!(ask.cursor, (0, 5));
    assert_eq!(outgoing.collect().len(), 1);
    // nothing but what has expired
    append_to_commitlog(
        id,
        publish(b"t", b"6"),
        short,
        &mut datalog,
        &mut notifications,
        &connections,
        now,
    )
    .unwrap();
    let status = forward_device_data(&mut ask, &datalog, &mut outgoing, &mut alertlog, later);
    assert_eq!(status, ConsumeStatus::FilterCaughtup);
    assert_eq!(ask.cursor, (0, 6));
    assert_eq!(outgoing.collect().len(), 0);
}

#[test]
fn subscriptions_are_validated() {
    let one = connection(Some("/one/"), false);
    let filter = |path: &str, qos| Filter { path: path.to_string(), qos };
    assert!(validate_subscription(&one, true, &filter("/one/a", QoS::AtMostOnce)).is_ok());
    let refused = validate_subscription(&one, true, &filter("/two/a", QoS::AtMostOnce));
    assert!(matches!(refused, Err(RouterError::InvalidFilterPrefix(path)) if path == "/two/a"));
    assert!(validate_subscription(&one, false, &filter("/two/a", QoS::AtMostOnce)).is_ok());
    let refused = validate_subscription(&one, false, &filter("a", QoS::ExactlyOnce));
    assert!(matches!(refused, Err(RouterError::UnsupportedQoS(QoS::ExactlyOnce))));
    let refused = validate_subscription(&one, false, &filter("$a", QoS::AtLeastOnce));
    assert!(matches!(refused, Err(RouterError::InvalidFilterPrefix(path)) if path == "$a"));
}

#[test]
fn client_ids_are_validated() {
    assert!(validate_clientid("client-1").is_ok());
    assert!(validate_clientid("").is_ok());
    for id in ["+", "a$", "#a", "a/b"] {
        let refused = validate_clientid(id);
        assert!(matches!(refused, Err(RouterError::InvalidClientId(text)) if text == id));
    }
}

#[test]
fn acks_go_to_the_outbox_in_order() {
    let mut acks = AckLog::new();
    let mut outgoing = Outgoing::new("a".to_string());
    assert!(!ack_device_data(&mut acks, &mut outgoing));
    assert!(!outgoing.woken);
    let connack = ConnAck { session_present: false, code: ConnectReturnCode::Success };
    acks.connack(3, connack);
    acks.pingresp();
    assert!(ack_device_data(&mut acks, &mut outgoing));
    assert!(outgoing.woken);
    let got = outgoing.collect();
    assert_eq!(got[0], Notification::DeviceAck(Ack::ConnAck(3, connack)));
    assert_eq!(got[1], Notification::DeviceAck(Ack::PingResp));
    assert!(!ack_device_data(&mut acks, &mut outgoing));
}

#[test]
fn recorded_publishes_are_released_in_order() {
    let mut acks = AckLog::new();
    let comp = PubComp { pkid: 1, reason: PubCompReason::Success };
    assert!(acks.pubcomp(comp).is_none());
    for payload in [b"1", b"2"] {
        acks.pubrec(
            publish(b"t", payload),
            PubRec { pkid: 1, reason: PubRecReason::Success },
        );
    }
    assert_eq!(acks.pubcomp(comp).unwrap().payload, Bytes::from_static(b"1"));
    assert_eq!(acks.pubcomp(comp).unwrap().payload, Bytes::from_static(b"2"));
    assert!(acks.pubcomp(comp).is_none());
}

#[test]
fn requests_are_served() {
    let now = Instant::now();
    let mut datalog = DataLog::new(RouterConfig { max_read_len: 2, ..config() });
    let mut alertlog = AlertLog::new(config());
    let mut notifications = VecDeque::new();
    let mut connections: Arena<Connection> = Arena::with_capacity(1);
    let id = connections.insert(connection(None, false));
    let (idx, _) = datalog.next_native_offset("t");
    let mut outgoing = Outgoing::new("a".to_string());
    let mut ask = request("t", idx, 0);
    let status = forward_device_data(&mut ask, &datalog, &mut outgoing, &mut alertlog, now);
    assert_eq!(status, ConsumeStatus::FilterCaughtup);
    for _ in 0..3 {
        append_to_commitlog(
            id,
            publish(b"t", b"x"),
            None,
            &mut datalog,
            &mut notifications,
            &connections,
            now,
        )
        .unwrap();
    }
    let status = forward_device_data(&mut ask, &datalog, &mut outgoing, &mut alertlog, now);
    assert_eq!(status, ConsumeStatus::PartialRead);
    assert_eq!(ask.cursor, (0, 2));
    assert_eq!(ask.read_count, 2);
    let status = forward_device_data(&mut ask, &datalog, &mut outgoing, &mut alertlog, now);
    assert_eq!(status, ConsumeStatus::FilterCaughtup);
    assert_eq!(ask.cursor, (0, 3));
    assert_eq!(outgoing.collect().len(), 3);
    // a request for a log that is not there
    let mut lost = request("u", 99, 0);
    let status = forward_device_data(&mut lost, &datalog, &mut outgoing, &mut alertlog, now);
    assert_eq!(status, ConsumeStatus::FilterCaughtup);
    // acks that are due take up room
    let mut full = request("t", idx, 1);
    for _ in 0..34 {
        full.cursor = (0, 0);
        forward_device_data(&mut full, &datalog, &mut outgoing, &mut alertlog, now);
    }
    assert_eq!(outgoing.free_slots(), 0);
    let status = forward_device_data(&mut full, &datalog, &mut outgoing, &mut alertlog, now);
    assert_eq!(status, ConsumeStatus::InflightFull);
    assert_eq!(outgoing.retransmission(idx), Some((0, 0)));
    assert_eq!(outgoing.retransmission(idx + 1), None);
    assert!(outgoing.register_ack(1).is_some());
    assert!(outgoing.register_ack(3).is_none());
}

#[test]
fn scheduler_wakes_for_the_right_reason() {
    let mut scheduler = Scheduler::with_capacity(2);
    let id = scheduler.add(Tracker::new("a".to_string()));
    scheduler.reschedule(id, ScheduleReason::FreshData);
    assert!(scheduler.poll().is_none());
    scheduler.reschedule(id, ScheduleReason::Init);
    scheduler.reschedule(id, ScheduleReason::Init);
    assert_eq!(scheduler.readyqueue.len(), 1);
    scheduler.track(id, request("t", 0, 0));
    scheduler.track(id, request("u", 1, 0));
    let filter = "t".to_string();
    scheduler.untrack(id, &filter);
    let (polled, requests) = scheduler.poll().unwrap();
    assert_eq!(polled, id);
    assert_eq!(requests.len(), 1);
    assert_eq!(requests[0].filter, "u");
    scheduler.trackv(id, requests);
    scheduler.pause(id, PauseReason::InflightFull);
    assert!(scheduler.poll().is_none());
    scheduler.reschedule(id, ScheduleReason::FreshData);
    assert!(scheduler.poll().is_none());
    scheduler.reschedule(id, ScheduleReason::IncomingAck);
    assert!(scheduler.poll().is_some());
    scheduler.remove(id);
    // the one that is gone leaves the queue
    let (polled, requests) = scheduler.poll().unwrap();
    assert_eq!(polled, id);
    assert_eq!(requests.len(), 0);
    assert!(scheduler.poll().is_none());
}
