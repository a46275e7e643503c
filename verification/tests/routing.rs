use bytes::Bytes;
use rumqttd_router::clock::Moment;
use rumqttd_router::protocol::{
    ConnectReturnCode, Filter, LastWill, Packet, PubAck, PubAckReason, PubRec, PubRecReason,
    PubRel, PubRelProperties, PubRelReason, Publish, PublishProperties, QoS, Subscribe,
    SubscribeReasonCode, Unsubscribe,
};
use rumqttd_router::registry::NameSet;
use rumqttd_router::router::alertlog::{Alert, AlertError, AlertEvent};
use rumqttd_router::router::errors::RouterError;
use rumqttd_router::router::events::{
    Event, GetMeter, Meter, MetricsReply, MetricsRequest, Progress, Received, Reply,
};
use rumqttd_router::router::iobufs::{Incoming, Outgoing};
use rumqttd_router::router::messages::{
    Ack, Connection, ConnectionEvents, Notification, RouterConfig, ShadowRequest,
};
use rumqttd_router::router::routing::Router;
use rumqttd_router::router::scheduler::{PauseReason, Status};
use std::time::{Duration, Instant};

fn config() -> RouterConfig {
    RouterConfig {
        max_segment_size: 1024 * 10,
        max_mem_segments: 10,
        max_read_len: 128,
        max_connections: 128,
        validate_tenant_prefix: false,
    }
}

fn moment(time: &str) -> Moment {
    Moment { now: Instant::now(), time: time.to_string() }
}

fn connection(clean: bool) -> Connection {
    Connection {
        tenant_prefix: None,
        clean,
        dynamic_filters: false,
        last_will: None,
        subscriptions: NameSet::new(),
        events: ConnectionEvents::new(),
    }
}

fn connect_with(router: &mut Router, client_id: &str, connection: Connection) -> Option<usize> {
    router.handle_new_connection_at(
        connection,
        Incoming::new(client_id.to_string()),
        Outgoing::new(client_id.to_string()),
        &moment("1"),
    );
    router.connection_id(&client_id.to_string())
}

fn connect(router: &mut Router, client_id: &str, clean: bool) -> usize {
    connect_with(router, client_id, connection(clean)).unwrap()
}

fn publish(topic: &str, payload: &str, qos: QoS, pkid: u16) -> Publish {
    Publish {
        dup: false,
        qos,
        retain: false,
        topic: Bytes::from(topic.to_string()),
        pkid,
        payload: Bytes::from(payload.to_string()),
    }
}

fn subscribe_packet(filters: Vec<(&str, QoS)>) -> Packet {
    let filters = filters
        .into_iter()
        .map(|(path, qos)| Filter { path: path.to_string(), qos })
        .collect();
    Packet::Subscribe(Subscribe { pkid: 7, filters })
}

fn send(router: &mut Router, id: usize, packets: Vec<Packet>) {
    for packet in packets {
        assert!(router.deposit(id, packet));
    }
    router.handle_device_payload(id);
}

fn subscribe(router: &mut Router, id: usize, path: &str, qos: QoS) {
    send(router, id, vec![subscribe_packet(vec![(path, qos)])]);
}

fn drain(router: &mut Router) {
    while router.consume().is_some() {}
}

fn forwards(notifications: &std::collections::VecDeque<Notification>) -> Vec<&Publish> {
    notifications
        .iter()
        .filter_map(|n| match n {
            Notification::Forward(f) => Some(&f.publish),
            _ => None,
        })
        .collect()
}

fn waiters(router: &mut Router, filter: &str) -> Vec<(String, (u64, u64))> {
    match router.retrieve_metrics(MetricsRequest::Waiters(filter.to_string())) {
        MetricsReply::Waiters(Some(rows)) => {
            rows.into_iter().map(|(client, request)| (client, request.cursor)).collect()
        }
        reply => panic!("{reply:?}"),
    }
}

#[test]
fn connection_is_acked_and_caught_up() {
    let mut router = Router::new(3, config());
    let id = connect(&mut router, "a", true);
    assert_eq!(id, 0);
    assert_eq!(connect(&mut router, "b", true), 1);
    drain(&mut router);
    assert!(router.woken(id));
    let got = router.collect(id).unwrap();
    assert_eq!(got.len(), 1);
    match &got[0] {
        Notification::DeviceAck(Ack::ConnAck(to, ack)) => {
            assert_eq!(*to, 0);
            assert!(!ack.session_present);
            assert_eq!(ack.code, ConnectReturnCode::Success);
        }
        other => panic!("{other:?}"),
    }
    assert!(!router.woken(id));
    assert!(router.consume().is_none());
}

#[test]
fn publish_is_appended_to_commitlog() {
    let mut router = Router::new(0, config());
    let sub = connect(&mut router, "sub", true);
    let publisher = connect(&mut router, "pub", true);
    subscribe(&mut router, sub, "hello/1/world", QoS::AtMostOnce);
    drain(&mut router);
    for _ in 0..10 {
        let packet = Packet::Publish(publish("hello/1/world", "hello", QoS::AtMostOnce, 0), None);
        send(&mut router, publisher, vec![packet]);
    }
    drain(&mut router);
    assert_eq!(waiters(&mut router, "hello/1/world"), vec![("sub".to_string(), (0, 10))]);
    let got = router.collect(sub).unwrap();
    assert_eq!(forwards(&got).len(), 10);
    match router.retrieve_metrics(MetricsRequest::Subscription("hello/1/world".to_string())) {
        MetricsReply::Subscription(Some(meter)) => {
            assert_eq!(meter.count, 10);
            assert_eq!(meter.total_size, 10 * (4 + 13 + 5));
        }
        reply => panic!("{reply:?}"),
    }
    match router.retrieve_metrics(MetricsRequest::Router) {
        MetricsReply::Router(meter) => {
            assert_eq!(meter.total_publishes, 10);
            assert_eq!(meter.failed_publishes, 0);
            assert_eq!(meter.total_connections, 2);
        }
        reply => panic!("{reply:?}"),
    }
}

#[test]
fn wildcard_subscriptions() {
    let mut router = Router::new(0, config());
    let all = connect(&mut router, "all", true);
    let some = connect(&mut router, "some", true);
    let publisher = connect(&mut router, "pub", true);
    subscribe(&mut router, all, "#", QoS::AtMostOnce);
    subscribe(&mut router, some, "hello/+/world", QoS::AtMostOnce);
    for _ in 0..10 {
        for i in 0..10 {
            let topic = format!("hello/{i}/world");
            let packet = Packet::Publish(publish(&topic, "hello", QoS::AtMostOnce, 0), None);
            send(&mut router, publisher, vec![packet]);
        }
    }
    for _ in 0..10 {
        let packet = Packet::Publish(publish("hello/world", "hello", QoS::AtMostOnce, 0), None);
        send(&mut router, publisher, vec![packet]);
    }
    drain(&mut router);
    assert_eq!(forwards(&router.collect(all).unwrap()).len(), 110);
    assert_eq!(forwards(&router.collect(some).unwrap()).len(), 100);
}

#[test]
fn pings_are_answered() {
    let mut router = Router::new(0, config());
    let id = connect(&mut router, "a", true);
    drain(&mut router);
    router.collect(id);
    send(&mut router, id, vec![Packet::PingReq, Packet::PingReq, Packet::PingReq]);
    drain(&mut router);
    let got = router.collect(id).unwrap();
    assert_eq!(got.len(), 3);
    for n in got {
        assert_eq!(n, Notification::DeviceAck(Ack::PingResp));
    }
}

#[test]
fn goodbye_ends_the_connection_without_the_will() {
    let mut router = Router::new(0, config());
    let watcher = connect(&mut router, "watcher", true);
    subscribe(&mut router, watcher, "will", QoS::AtMostOnce);
    drain(&mut router);
    let mut with_will = connection(true);
    with_will.last_will = Some(LastWill {
        topic: Bytes::from_static(b"will"),
        message: Bytes::from_static(b"gone"),
        qos: QoS::AtMostOnce,
        retain: false,
    });
    let id = connect_with(&mut router, "a", with_will).unwrap();
    // what follows the goodbye is dropped
    send(&mut router, id, vec![Packet::Disconnect, Packet::PingReq]);
    assert!(router.collect(id).is_none());
    assert!(router.connection_id(&"a".to_string()).is_none());
    drain(&mut router);
    assert_eq!(forwards(&router.collect(watcher).unwrap()).len(), 0);
}

#[test]
fn lost_connection_publishes_the_will() {
    let mut router = Router::new(0, config());
    let watcher = connect(&mut router, "watcher", true);
    subscribe(&mut router, watcher, "will", QoS::AtMostOnce);
    drain(&mut router);
    let mut with_will = connection(true);
    with_will.last_will = Some(LastWill {
        topic: Bytes::from_static(b"will"),
        message: Bytes::from_static(b"gone"),
        qos: QoS::AtLeastOnce,
        retain: false,
    });
    let id = connect_with(&mut router, "a", with_will).unwrap();
    router.handle_disconnection(id, true);
    // once more changes nothing
    router.handle_disconnection(id, true);
    drain(&mut router);
    let got = router.collect(watcher).unwrap();
    let got = forwards(&got);
    assert_eq!(got.len(), 1);
    assert_eq!(got[0].payload, Bytes::from_static(b"gone"));
    assert_eq!(got[0].qos, QoS::AtMostOnce);
    match router.retrieve_metrics(MetricsRequest::Router) {
        MetricsReply::Router(meter) => assert_eq!(meter.total_connections, 1),
        reply => panic!("{reply:?}"),
    }
}

#[test]
fn last_will_is_taken_once() {
    let mut router = Router::new(0, config());
    let mut with_will = connection(true);
    with_will.last_will = Some(LastWill {
        topic: Bytes::from_static(b"will"),
        message: Bytes::from_static(b"gone"),
        qos: QoS::AtMostOnce,
        retain: false,
    });
    let id = connect_with(&mut router, "a", with_will).unwrap();
    router.handle_last_will(id);
    router.handle_last_will(id);
    match router.retrieve_metrics(MetricsRequest::Router) {
        // nobody subscribed, so the one publish failed
        MetricsReply::Router(meter) => assert_eq!(meter.failed_publishes, 1),
        reply => panic!("{reply:?}"),
    }
}

#[test]
fn invalid_subscription_disconnects() {
    for path in ["$hello/world"] {
        let mut router = Router::new(0, config());
        let id = connect(&mut router, "a", true);
        subscribe(&mut router, id, path, QoS::AtMostOnce);
        assert!(router.collect(id).is_none());
    }
    let mut router = Router::new(0, config());
    let id = connect(&mut router, "a", true);
    subscribe(&mut router, id, "hello", QoS::ExactlyOnce);
    assert!(router.collect(id).is_none());
    let mut router = Router::new(0, RouterConfig { validate_tenant_prefix: true, ..config() });
    let mut tenant = connection(true);
    tenant.tenant_prefix = Some("/tenants/one/".to_string());
    let id = connect_with(&mut router, "a", tenant).unwrap();
    subscribe(&mut router, id, "/tenants/one/data", QoS::AtMostOnce);
    assert!(router.collect(id).is_some());
    subscribe(&mut router, id, "/tenants/two/data", QoS::AtMostOnce);
    assert!(router.collect(id).is_none());
}

#[test]
fn filters_behind_a_refused_one_are_not_subscribed_to() {
    let mut router = Router::new(0, config());
    let id = connect(&mut router, "a", false);
    let filters = vec![
        ("first", QoS::AtLeastOnce),
        ("$second", QoS::AtMostOnce),
        ("third", QoS::AtMostOnce),
    ];
    send(&mut router, id, vec![subscribe_packet(filters)]);
    assert!(router.collect(id).is_none());
    match router.retrieve_metrics(MetricsRequest::Subscriptions) {
        MetricsReply::Subscriptions(rows) => {
            assert_eq!(rows, vec![("first".to_string(), Vec::<String>::new())]);
        }
        reply => panic!("{reply:?}"),
    }
}

#[test]
fn subscription_is_acked_with_codes() {
    let mut router = Router::new(0, config());
    let id = connect(&mut router, "a", true);
    drain(&mut router);
    router.collect(id);
    let filters = vec![("x", QoS::AtMostOnce), ("y", QoS::AtLeastOnce)];
    send(&mut router, id, vec![subscribe_packet(filters)]);
    drain(&mut router);
    match &router.collect(id).unwrap()[0] {
        Notification::DeviceAck(Ack::SubAck(ack)) => {
            assert_eq!(ack.pkid, 7);
            assert_eq!(
                ack.return_codes,
                vec![SubscribeReasonCode::QoS0, SubscribeReasonCode::QoS1]
            );
        }
        other => panic!("{other:?}"),
    }
}

#[test]
fn invalid_publish_disconnects() {
    let mut router = Router::new(0, config());
    let id = connect(&mut router, "a", true);
    let packet = Packet::Publish(publish("invalid/topic", "hello", QoS::AtMostOnce, 0), None);
    send(&mut router, id, vec![packet]);
    assert!(router.collect(id).is_none());
    match router.retrieve_metrics(MetricsRequest::Router) {
        MetricsReply::Router(meter) => {
            assert_eq!(meter.total_publishes, 1);
            assert_eq!(meter.failed_publishes, 1);
        }
        reply => panic!("{reply:?}"),
    }
}

#[test]
fn dynamic_filters_take_any_publish() {
    let mut router = Router::new(0, config());
    let mut dynamic = connection(true);
    dynamic.dynamic_filters = true;
    let id = connect_with(&mut router, "a", dynamic).unwrap();
    let packet = Packet::Publish(publish("new/topic", "hello", QoS::AtMostOnce, 0), None);
    send(&mut router, id, vec![packet]);
    assert!(router.collect(id).is_some());
    match router.retrieve_metrics(MetricsRequest::Subscription("new/topic".to_string())) {
        MetricsReply::Subscription(Some(meter)) => assert_eq!(meter.count, 1),
        reply => panic!("{reply:?}"),
    }
}

#[test]
fn exactly_once_publish_disconnects() {
    let mut router = Router::new(0, config());
    let id = connect(&mut router, "a", true);
    subscribe(&mut router, id, "t", QoS::AtMostOnce);
    let packet = Packet::Publish(publish("t", "hello", QoS::ExactlyOnce, 1), None);
    send(&mut router, id, vec![packet]);
    assert!(router.collect(id).is_none());
    match router.retrieve_metrics(MetricsRequest::Router) {
        MetricsReply::Router(meter) => assert_eq!(meter.total_publishes, 0),
        reply => panic!("{reply:?}"),
    }
}

#[test]
fn data_before_the_end_is_passed_on() {
    let mut router = Router::new(0, config());
    let sub = connect(&mut router, "sub", true);
    let publisher = connect(&mut router, "pub", true);
    subscribe(&mut router, sub, "t", QoS::AtMostOnce);
    drain(&mut router);
    let packets = vec![
        Packet::Publish(publish("t", "one", QoS::AtMostOnce, 0), None),
        Packet::Publish(publish("t", "two", QoS::ExactlyOnce, 1), None),
        Packet::Publish(publish("t", "three", QoS::AtMostOnce, 0), None),
    ];
    send(&mut router, publisher, packets);
    assert!(!router.is_connected(publisher));
    drain(&mut router);
    let got = router.collect(sub).unwrap();
    let got = forwards(&got);
    assert_eq!(got.len(), 1);
    assert_eq!(got[0].payload, Bytes::from_static(b"one"));
}

#[test]
fn at_least_once_publish_is_acked() {
    let mut router = Router::new(0, config());
    let id = connect(&mut router, "a", true);
    subscribe(&mut router, id, "t", QoS::AtMostOnce);
    drain(&mut router);
    router.collect(id);
    send(
        &mut router,
        id,
        vec![Packet::Publish(publish("t", "hello", QoS::AtLeastOnce, 42), None)],
    );
    drain(&mut router);
    let got = router.collect(id).unwrap();
    let puback = PubAck { pkid: 42, reason: PubAckReason::Success };
    assert_eq!(got[0], Notification::DeviceAck(Ack::PubAck(puback)));
    assert_eq!(forwards(&got).len(), 1);
}

#[test]
fn inflight_publishes_are_limited() {
    let mut router = Router::new(0, config());
    let sub = connect(&mut router, "sub", true);
    let publisher = connect(&mut router, "pub", true);
    subscribe(&mut router, sub, "t", QoS::AtLeastOnce);
    drain(&mut router);
    router.collect(sub);
    let packets = (0..150)
        .map(|_| Packet::Publish(publish("t", "hello", QoS::AtMostOnce, 0), None))
        .collect();
    send(&mut router, publisher, packets);
    drain(&mut router);
    let got = router.collect(sub).unwrap();
    let got = forwards(&got);
    assert_eq!(got.len(), 100);
    assert_eq!(got[0].pkid, 1);
    assert_eq!(got[99].pkid, 100);
    assert_eq!(got[0].qos, QoS::AtLeastOnce);
    // ten acks make room for ten more
    let acks = (1..=10)
        .map(|pkid| Packet::PubAck(PubAck { pkid, reason: PubAckReason::Success }))
        .collect();
    send(&mut router, sub, acks);
    drain(&mut router);
    let got = router.collect(sub).unwrap();
    let got = forwards(&got);
    assert_eq!(got.len(), 10);
    assert_eq!(got[0].pkid, 1);
}

#[test]
fn ack_out_of_order_disconnects() {
    let mut router = Router::new(0, config());
    let sub = connect(&mut router, "sub", true);
    subscribe(&mut router, sub, "t", QoS::AtLeastOnce);
    let packets = (0..2)
        .map(|_| Packet::Publish(publish("t", "hello", QoS::AtMostOnce, 0), None))
        .collect();
    send(&mut router, sub, packets);
    drain(&mut router);
    let ack = Packet::PubAck(PubAck { pkid: 2, reason: PubAckReason::Success });
    send(&mut router, sub, vec![ack]);
    assert!(router.collect(sub).is_none());
}

#[test]
fn pubrec_is_answered_by_pubrel() {
    let mut router = Router::new(0, config());
    let sub = connect(&mut router, "sub", true);
    subscribe(&mut router, sub, "t", QoS::AtLeastOnce);
    let packet = Packet::Publish(publish("t", "hello", QoS::AtMostOnce, 0), None);
    send(&mut router, sub, vec![packet]);
    drain(&mut router);
    router.collect(sub);
    let rec = Packet::PubRec(PubRec { pkid: 1, reason: PubRecReason::Success });
    send(&mut router, sub, vec![rec]);
    drain(&mut router);
    let got = router.collect(sub).unwrap();
    let pubrel = PubRel { pkid: 1, reason: PubRelReason::Success };
    assert_eq!(got[0], Notification::DeviceAck(Ack::PubRel(pubrel)));
}

#[test]
fn pubrel_without_a_recorded_publish_disconnects() {
    let mut router = Router::new(0, config());
    let id = connect(&mut router, "a", true);
    let pubrel = PubRel { pkid: 1, reason: PubRelReason::Success };
    let props = PubRelProperties { reason_string: None };
    // with properties it is not looked at
    send(&mut router, id, vec![Packet::PubRel(pubrel, Some(props))]);
    assert!(router.collect(id).is_some());
    send(&mut router, id, vec![Packet::PubRel(pubrel, None)]);
    assert!(router.collect(id).is_none());
}

#[test]
fn session_is_resumed() {
    let mut router = Router::new(0, config());
    let id = connect(&mut router, "a", false);
    let publisher = connect(&mut router, "pub", true);
    subscribe(&mut router, id, "hello/1/world", QoS::AtLeastOnce);
    subscribe(&mut router, id, "hello/2/world", QoS::AtMostOnce);
    let packets = (0..3)
        .map(|_| Packet::Publish(publish("hello/1/world", "x", QoS::AtMostOnce, 0), None))
        .collect();
    send(&mut router, publisher, packets);
    drain(&mut router);
    assert_eq!(forwards(&router.collect(id).unwrap()).len(), 3);
    // the first of three is acked
    let ack = Packet::PubAck(PubAck { pkid: 1, reason: PubAckReason::Success });
    send(&mut router, id, vec![ack]);
    drain(&mut router);
    router.handle_disconnection_at(id, true, &moment("5"));
    assert_eq!(waiters(&mut router, "hello/1/world"), vec![]);
    let back = connect(&mut router, "a", false);
    drain(&mut router);
    let got = router.collect(back).unwrap();
    match &got[0] {
        Notification::DeviceAck(Ack::ConnAck(_, ack)) => assert!(ack.session_present),
        other => panic!("{other:?}"),
    }
    // what was not acked comes again
    assert_eq!(forwards(&got).len(), 2);
    assert_eq!(waiters(&mut router, "hello/1/world"), vec![("a".to_string(), (0, 3))]);
    assert_eq!(waiters(&mut router, "hello/2/world"), vec![("a".to_string(), (0, 0))]);
    match router.retrieve_metrics(MetricsRequest::Connection("a".to_string())) {
        MetricsReply::Connection(Some((events, tracker))) => {
            let expected = vec![
                "connection at 1, clean = false",
                "disconnection at 5",
                "connection at 1, clean = false",
            ];
            assert_eq!(events.events, expected);
            assert_eq!(tracker.id, "a");
            assert_eq!(tracker.status, Status::Paused(PauseReason::Caughtup));
        }
        reply => panic!("{reply:?}"),
    }
}

fn subscribers(router: &mut Router) -> Vec<(String, Vec<String>)> {
    match router.retrieve_metrics(MetricsRequest::Subscriptions) {
        MetricsReply::Subscriptions(rows) => rows,
        reply => panic!("{reply:?}"),
    }
}

#[test]
fn resumed_session_can_be_unsubscribed() {
    let mut router = Router::new(0, config());
    let other = connect(&mut router, "other", true);
    let id = connect(&mut router, "a", false);
    subscribe(&mut router, id, "t", QoS::AtMostOnce);
    subscribe(&mut router, id, "u", QoS::AtMostOnce);
    subscribe(&mut router, other, "t", QoS::AtMostOnce);
    router.handle_disconnection_at(id, true, &moment("5"));
    let row = |filter: &str, clients: &[&str]| {
        (filter.to_string(), clients.iter().map(|c| c.to_string()).collect::<Vec<String>>())
    };
    assert_eq!(subscribers(&mut router), vec![row("t", &["other"]), row("u", &[])]);
    let back = connect(&mut router, "a", false);
    assert_eq!(subscribers(&mut router), vec![row("t", &["other", "a"]), row("u", &["a"])]);
    drain(&mut router);
    router.collect(back);
    let unsubscribe = Unsubscribe { pkid: 9, filters: vec!["t".to_string()] };
    send(&mut router, back, vec![Packet::Unsubscribe(unsubscribe)]);
    assert_eq!(subscribers(&mut router), vec![row("t", &["other"]), row("u", &["a"])]);
    let packets = ["t", "u"]
        .into_iter()
        .map(|topic| Packet::Publish(publish(topic, "x", QoS::AtMostOnce, 0), None))
        .collect();
    send(&mut router, other, packets);
    drain(&mut router);
    let got = router.collect(back).unwrap();
    let acks = got
        .iter()
        .filter(|n| matches!(n, Notification::DeviceAck(Ack::UnsubAck(ack)) if ack.pkid == 9))
        .count();
    assert_eq!(acks, 1);
    let topics: Vec<&Bytes> = forwards(&got).into_iter().map(|publish| &publish.topic).collect();
    assert_eq!(topics, vec![&Bytes::from_static(b"u")]);
    // and nothing of it comes back with the next session
    router.handle_disconnection_at(back, true, &moment("6"));
    let again = connect(&mut router, "a", false);
    assert_eq!(subscribers(&mut router), vec![row("t", &["other"]), row("u", &["a"])]);
    drain(&mut router);
    assert_eq!(forwards(&router.collect(again).unwrap()).len(), 0);
}

#[test]
fn given_subscriptions_of_a_clean_session_are_listed() {
    let mut router = Router::new(0, config());
    let mut given = connection(true);
    given.subscriptions.insert("t".to_string());
    connect_with(&mut router, "a", given).unwrap();
    assert_eq!(subscribers(&mut router), vec![("t".to_string(), vec!["a".to_string()])]);
}

#[test]
fn one_request_per_filter() {
    let mut router = Router::new(0, config());
    let sub = connect(&mut router, "sub", true);
    let publisher = connect(&mut router, "pub", true);
    subscribe(&mut router, sub, "t", QoS::AtMostOnce);
    // a second subscription changes nothing, even at another level
    subscribe(&mut router, sub, "t", QoS::AtLeastOnce);
    drain(&mut router);
    assert_eq!(waiters(&mut router, "t"), vec![("sub".to_string(), (0, 0))]);
    // one that ends and begins again starts anew
    let unsubscribe = Unsubscribe { pkid: 3, filters: vec!["t".to_string()] };
    let packets = vec![
        Packet::Unsubscribe(unsubscribe),
        subscribe_packet(vec![("t", QoS::AtMostOnce), ("t", QoS::AtMostOnce)]),
    ];
    send(&mut router, sub, packets);
    drain(&mut router);
    router.collect(sub);
    assert_eq!(waiters(&mut router, "t"), vec![("sub".to_string(), (0, 0))]);
    let packet = Packet::Publish(publish("t", "x", QoS::AtMostOnce, 0), None);
    send(&mut router, publisher, vec![packet]);
    drain(&mut router);
    assert_eq!(forwards(&router.collect(sub).unwrap()).len(), 1);
    assert_eq!(waiters(&mut router, "t"), vec![("sub".to_string(), (0, 1))]);
}

#[test]
fn what_came_before_an_unsubscription_is_still_passed_on() {
    let mut router = Router::new(0, config());
    let sub = connect(&mut router, "sub", true);
    let publisher = connect(&mut router, "pub", true);
    subscribe(&mut router, sub, "t", QoS::AtMostOnce);
    drain(&mut router);
    router.collect(sub);
    // who waits for the filter is to be told of the publish, and leaves then
    let packets = vec![
        Packet::Publish(publish("t", "x", QoS::AtMostOnce, 0), None),
        Packet::Unsubscribe(Unsubscribe { pkid: 3, filters: vec!["t".to_string()] }),
    ];
    send(&mut router, sub, packets);
    drain(&mut router);
    let got = router.collect(sub).unwrap();
    let got = forwards(&got);
    assert_eq!(got.len(), 1);
    assert_eq!(got[0].payload, Bytes::from_static(b"x"));
    assert_eq!(subscribers(&mut router), vec![("t".to_string(), vec![])]);
    // the request is still there
    assert_eq!(waiters(&mut router, "t"), vec![("sub".to_string(), (0, 1))]);
    // and a new subscription puts in another one
    subscribe(&mut router, sub, "t", QoS::AtMostOnce);
    drain(&mut router);
    router.collect(sub);
    assert_eq!(waiters(&mut router, "t").len(), 2);
    let packet = Packet::Publish(publish("t", "y", QoS::AtMostOnce, 0), None);
    send(&mut router, publisher, vec![packet]);
    drain(&mut router);
    assert_eq!(forwards(&router.collect(sub).unwrap()).len(), 2);
    // an unsubscription on its own takes all of them away
    let unsubscribe = Unsubscribe { pkid: 4, filters: vec!["t".to_string()] };
    send(&mut router, sub, vec![Packet::Unsubscribe(unsubscribe)]);
    assert_eq!(waiters(&mut router, "t"), vec![]);
}

#[test]
fn handled_inbox_is_empty() {
    let mut router = Router::new(0, config());
    let a = connect(&mut router, "a", true);
    let b = connect(&mut router, "b", true);
    drain(&mut router);
    router.collect(a);
    router.collect(b);
    assert!(router.deposit(a, Packet::PingReq));
    assert!(router.deposit(a, Packet::PingReq));
    assert!(router.deposit(b, Packet::PingReq));
    router.handle_device_payload(a);
    drain(&mut router);
    assert_eq!(router.collect(a).unwrap().len(), 2);
    assert_eq!(router.collect(b).unwrap().len(), 0);
    // there is nothing left
    router.handle_device_payload(a);
    drain(&mut router);
    assert_eq!(router.collect(a).unwrap().len(), 0);
    // what the other sent is still there
    router.handle_device_payload(b);
    drain(&mut router);
    assert_eq!(router.collect(b).unwrap().len(), 1);
}

#[test]
fn clean_session_keeps_only_the_history() {
    let mut router = Router::new(0, config());
    let id = connect(&mut router, "a", true);
    subscribe(&mut router, id, "t", QoS::AtMostOnce);
    router.handle_disconnection_at(id, false, &moment("2"));
    let back = connect(&mut router, "a", true);
    drain(&mut router);
    match &router.collect(back).unwrap()[0] {
        Notification::DeviceAck(Ack::ConnAck(_, ack)) => assert!(!ack.session_present),
        other => panic!("{other:?}"),
    }
    assert_eq!(waiters(&mut router, "t"), vec![]);
    match router.retrieve_metrics(MetricsRequest::Connection("a".to_string())) {
        MetricsReply::Connection(Some((events, tracker))) => {
            assert_eq!(events.events.len(), 3);
            assert_eq!(events.events[2], "connection at 1, clean = true");
            assert_eq!(tracker.data_requests.len(), 0);
        }
        reply => panic!("{reply:?}"),
    }
}

#[test]
fn history_is_bounded() {
    let mut router = Router::new(0, config());
    for _ in 0..8 {
        let id = connect(&mut router, "a", true);
        router.handle_disconnection_at(id, false, &moment("2"));
    }
    match router.retrieve_metrics(MetricsRequest::Connection("a".to_string())) {
        MetricsReply::Connection(Some((events, _))) => assert_eq!(events.events.len(), 10),
        reply => panic!("{reply:?}"),
    }
    // a report takes the saved session out
    match router.retrieve_metrics(MetricsRequest::Connection("a".to_string())) {
        MetricsReply::Connection(None) => {}
        reply => panic!("{reply:?}"),
    }
}

#[test]
fn duplicate_client_replaces_the_older_connection() {
    let mut router = Router::new(0, config());
    let first = connect(&mut router, "a", true);
    let other = connect(&mut router, "b", true);
    let second = connect(&mut router, "a", true);
    // the number that was released last is taken again
    assert_eq!(second, first);
    assert_ne!(second, other);
    match router.retrieve_metrics(MetricsRequest::Router) {
        MetricsReply::Router(meter) => assert_eq!(meter.total_connections, 2),
        reply => panic!("{reply:?}"),
    }
}

#[test]
fn connections_beyond_the_limit_are_turned_away() {
    let mut router = Router::new(0, RouterConfig { max_connections: 2, ..config() });
    assert!(connect_with(&mut router, "a", connection(true)).is_some());
    assert!(connect_with(&mut router, "b", connection(true)).is_some());
    assert!(connect_with(&mut router, "c", connection(true)).is_none());
    match router.retrieve_metrics(MetricsRequest::Router) {
        MetricsReply::Router(meter) => assert_eq!(meter.total_connections, 2),
        reply => panic!("{reply:?}"),
    }
    router.handle_disconnection(0, false);
    assert_eq!(connect(&mut router, "c", true), 0);
}

#[test]
fn client_ids_with_special_characters_are_not_let_in() {
    let mut router = Router::new(0, config());
    for client_id in ["a+b", "$a", "a#", "a/b"] {
        assert!(connect_with(&mut router, client_id, connection(true)).is_none());
    }
    assert!(connect_with(&mut router, "a-b", connection(true)).is_some());
}

#[test]
fn retained_publish_is_replayed() {
    let mut router = Router::new(0, config());
    let publisher = connect(&mut router, "pub", true);
    subscribe(&mut router, publisher, "t/1", QoS::AtMostOnce);
    for payload in ["old", "new"] {
        let mut retained = publish("t/1", payload, QoS::AtMostOnce, 0);
        retained.retain = true;
        send(&mut router, publisher, vec![Packet::Publish(retained, None)]);
    }
    drain(&mut router);
    // subscribers at the time do not see the flag
    let got = router.collect(publisher).unwrap();
    let got = forwards(&got);
    assert_eq!(got.len(), 2);
    assert!(!got[0].retain);
    let late = connect(&mut router, "late", true);
    subscribe(&mut router, late, "t/+", QoS::AtMostOnce);
    drain(&mut router);
    let got = router.collect(late).unwrap();
    let got = forwards(&got);
    assert_eq!(got.len(), 1);
    assert!(got[0].retain);
    assert_eq!(got[0].payload, Bytes::from_static(b"new"));
    // an empty payload clears it
    let empty = publish("t/1", "", QoS::AtMostOnce, 0);
    send(&mut router, publisher, vec![Packet::Publish(empty, None)]);
    let later = connect(&mut router, "later", true);
    subscribe(&mut router, later, "+/1", QoS::AtMostOnce);
    drain(&mut router);
    assert_eq!(forwards(&router.collect(later).unwrap()).len(), 0);
}

#[test]
fn expired_publish_is_not_delivered() {
    let mut router = Router::new(0, config());
    let sub = connect(&mut router, "sub", true);
    subscribe(&mut router, sub, "t", QoS::AtMostOnce);
    let start = moment("1");
    let props = PublishProperties { message_expiry_interval: Some(10) };
    router.deposit(
        sub,
        Packet::Publish(publish("t", "x", QoS::AtMostOnce, 0), Some(props)),
    );
    router.deposit(sub, Packet::Publish(publish("t", "y", QoS::AtMostOnce, 0), None));
    router.handle_device_payload_at(sub, &start);
    while router.consume_at(start.now + Duration::from_secs(10)).is_some() {}
    let got = router.collect(sub).unwrap();
    let got = forwards(&got);
    assert_eq!(got.len(), 1);
    assert_eq!(got[0].payload, Bytes::from_static(b"y"));
    router.deposit(
        sub,
        Packet::Publish(publish("t", "z", QoS::AtMostOnce, 0), Some(props)),
    );
    router.handle_device_payload_at(sub, &start);
    while router.consume_at(start.now + Duration::from_millis(9_999)).is_some() {}
    assert_eq!(forwards(&router.collect(sub).unwrap()).len(), 1);
}

#[test]
fn live_publish_behind_expired_ones_is_delivered() {
    let mut router = Router::new(0, RouterConfig { max_read_len: 1, ..config() });
    let sub = connect(&mut router, "sub", true);
    subscribe(&mut router, sub, "t", QoS::AtMostOnce);
    let start = moment("1");
    let props = PublishProperties { message_expiry_interval: Some(10) };
    for (payload, props) in [("x", Some(props)), ("y", Some(props)), ("z", None)] {
        let packet = Packet::Publish(publish("t", payload, QoS::AtMostOnce, 0), props);
        assert!(router.deposit(sub, packet));
    }
    router.handle_device_payload_at(sub, &start);
    while router.consume_at(start.now + Duration::from_secs(10)).is_some() {}
    let got = router.collect(sub).unwrap();
    let got = forwards(&got);
    assert_eq!(got.len(), 1);
    assert_eq!(got[0].payload, Bytes::from_static(b"z"));
    assert_eq!(waiters(&mut router, "t"), vec![("sub".to_string(), (0, 3))]);
    // expired ones alone
    let packet = Packet::Publish(publish("t", "w", QoS::AtMostOnce, 0), Some(props));
    assert!(router.deposit(sub, packet));
    router.handle_device_payload_at(sub, &start);
    while router.consume_at(start.now + Duration::from_secs(10)).is_some() {}
    assert_eq!(forwards(&router.collect(sub).unwrap()).len(), 0);
    assert_eq!(waiters(&mut router, "t"), vec![("sub".to_string(), (0, 4))]);
}

#[test]
fn unsubscribed_filter_is_not_delivered() {
    let mut router = Router::new(0, config());
    let sub = connect(&mut router, "sub", true);
    subscribe(&mut router, sub, "t", QoS::AtMostOnce);
    drain(&mut router);
    router.collect(sub);
    let unsubscribe = Unsubscribe {
        pkid: 9,
        filters: vec!["t".to_string(), "unknown".to_string()],
    };
    send(&mut router, sub, vec![Packet::Unsubscribe(unsubscribe)]);
    let packet = Packet::Publish(publish("t", "x", QoS::AtMostOnce, 0), None);
    send(&mut router, sub, vec![packet]);
    drain(&mut router);
    let got = router.collect(sub).unwrap();
    assert_eq!(forwards(&got).len(), 0);
    let acks = got
        .iter()
        .filter(|n| matches!(n, Notification::DeviceAck(Ack::UnsubAck(ack)) if ack.pkid == 9))
        .count();
    assert_eq!(acks, 1);
    match router.retrieve_metrics(MetricsRequest::Subscriptions) {
        MetricsReply::Subscriptions(rows) => {
            assert_eq!(rows, vec![("t".to_string(), Vec::<String>::new())]);
        }
        reply => panic!("{reply:?}"),
    }
}

#[test]
fn full_outbox_is_unscheduled_until_the_link_is_ready() {
    let mut router = Router::new(0, RouterConfig { max_read_len: 500, ..config() });
    let sub = connect(&mut router, "sub", true);
    subscribe(&mut router, sub, "t", QoS::AtMostOnce);
    drain(&mut router);
    router.collect(sub);
    let packets = (0..250)
        .map(|_| Packet::Publish(publish("t", "x", QoS::AtMostOnce, 0), None))
        .collect();
    send(&mut router, sub, packets);
    drain(&mut router);
    let got = router.collect(sub).unwrap();
    assert_eq!(forwards(&got).len(), 250);
    assert_eq!(got[got.len() - 1], Notification::Unschedule);
    let packet = Packet::Publish(publish("t", "x", QoS::AtMostOnce, 0), None);
    send(&mut router, sub, vec![packet]);
    assert!(router.consume().is_none());
    assert!(matches!(router.events(sub, Event::Ready), Reply::Nothing));
    drain(&mut router);
    assert_eq!(forwards(&router.collect(sub).unwrap()).len(), 1);
}

#[test]
fn shadow_is_the_last_publish() {
    let mut router = Router::new(0, config());
    let id = connect(&mut router, "a", true);
    subscribe(&mut router, id, "t", QoS::AtMostOnce);
    drain(&mut router);
    router.collect(id);
    let request = ShadowRequest { filter: "t".to_string() };
    router.events(id, Event::Shadow(request));
    assert_eq!(router.collect(id).unwrap().len(), 0);
    for payload in ["one", "two"] {
        let packet = Packet::Publish(publish("t", payload, QoS::AtMostOnce, 0), None);
        send(&mut router, id, vec![packet]);
    }
    let request = ShadowRequest { filter: "t".to_string() };
    router.events(id, Event::Shadow(request));
    match &router.collect(id).unwrap()[0] {
        Notification::Shadow(reply) => {
            assert_eq!(reply.topic, Bytes::from_static(b"t"));
            assert_eq!(reply.payload, Bytes::from_static(b"two"));
        }
        other => panic!("{other:?}"),
    }
}

#[test]
fn meters_are_reported() {
    let mut router = Router::new(5, config());
    let id = connect(&mut router, "a", true);
    subscribe(&mut router, id, "t", QoS::AtMostOnce);
    let packet = Packet::Publish(publish("t", "xyz", QoS::AtMostOnce, 0), None);
    send(&mut router, id, vec![packet]);
    drain(&mut router);
    let meter_id = match router.events(0, Event::NewMeter) {
        Reply::Meters(meter_id, meters) => {
            assert!(matches!(meters[0], Meter::Router(5, _)));
            meter_id
        }
        reply => panic!("{reply:?}"),
    };
    assert_eq!(meter_id, 0);
    let (to, meters) =
        router.handle_get_meter(meter_id, GetMeter::Connection(Some("a".to_string())));
    assert_eq!(to, meter_id);
    match &meters[0] {
        Meter::Connection(client_id, Some(incoming), Some(outgoing)) => {
            assert_eq!(client_id, "a");
            assert_eq!(incoming.publish_count, 1);
            assert_eq!(incoming.total_size, 4 + 1 + 3);
            assert!(incoming.subscriptions.contains(&"t".to_string()));
            assert_eq!(outgoing.publish_count, 1);
            assert_eq!(outgoing.total_size, 8);
        }
        other => panic!("{other:?}"),
    }
    let (_, meters) =
        router.handle_get_meter(meter_id, GetMeter::Connection(Some("b".to_string())));
    match &meters[0] {
        Meter::Connection(client_id, None, None) => assert_eq!(client_id, ""),
        other => panic!("{other:?}"),
    }
    let (_, meters) = router.handle_get_meter(meter_id, GetMeter::Connection(None));
    assert_eq!(meters.len(), 1);
    let (_, meters) =
        router.handle_get_meter(meter_id, GetMeter::Subscription(Some("u".to_string())));
    assert!(matches!(&meters[0], Meter::Subscription(_, None)));
    let (_, meters) = router.handle_get_meter(meter_id, GetMeter::Subscription(None));
    assert!(matches!(&meters[0], Meter::Subscription(_, Some(_))));
    let (_, meters) = router.handle_get_meter(meter_id, GetMeter::Router);
    assert!(matches!(&meters[0], Meter::Router(5, _)));
}

#[test]
fn events_about_what_is_not_there_are_not_accepted() {
    let mut router = Router::new(0, config());
    assert!(!router.accepts(0, &Event::GetMeter(GetMeter::Router)));
    assert!(router.accepts(0, &Event::NewMeter));
    assert!(router.accepts(0, &Event::NewAlert(vec![])));
    let request = ShadowRequest { filter: "t".to_string() };
    assert!(!router.accepts(0, &Event::Shadow(request)));
    router.events(0, Event::NewMeter);
    assert!(router.accepts(0, &Event::GetMeter(GetMeter::Router)));
}

#[test]
fn alerts_are_handed_out() {
    let mut router = Router::new(0, config());
    let filters = vec!["/alerts/event/connect/+".to_string(), "/alerts/event/#".to_string()];
    match router.events(0, Event::NewAlert(filters)) {
        Reply::Alert(0, alert) => {
            assert_eq!(alert, Alert::event("AlertsLink".to_string(), AlertEvent::Connect));
        }
        reply => panic!("{reply:?}"),
    }
    let id = connect(&mut router, "a", true);
    subscribe(&mut router, id, "t", QoS::AtMostOnce);
    let unsubscribe = Unsubscribe { pkid: 9, filters: vec!["t".to_string()] };
    send(&mut router, id, vec![Packet::Unsubscribe(unsubscribe)]);
    router.handle_disconnection(id, false);
    let sent = router.send_all_alerts();
    assert_eq!(sent.len(), 5);
    assert!(sent.iter().all(|(to, _)| *to == 0));
    let connected = Alert::event("a".to_string(), AlertEvent::Connect);
    assert_eq!(sent[0].1, connected);
    assert_eq!(sent[1].1, connected);
    assert!(matches!(&sent[2].1, Alert::Event(_, AlertEvent::Subscribe(s)) if s.pkid == 7));
    assert!(matches!(&sent[3].1, Alert::Event(_, AlertEvent::Unsubscribe(u)) if u.pkid == 9));
    assert_eq!(sent[4].1, Alert::event("a".to_string(), AlertEvent::Disconnect));
    assert_eq!(router.send_all_alerts().len(), 0);
}

#[test]
fn slow_reader_is_reported() {
    let small = RouterConfig { max_segment_size: 1, max_mem_segments: 2, ..config() };
    let mut router = Router::new(0, small);
    router.events(0, Event::NewAlert(vec!["/alerts/error/#".to_string()]));
    let sub = connect(&mut router, "slow", true);
    subscribe(&mut router, sub, "t", QoS::AtMostOnce);
    let packets = (0..5)
        .map(|i| Packet::Publish(publish("t", &format!("{i}"), QoS::AtMostOnce, 0), None))
        .collect();
    send(&mut router, sub, packets);
    drain(&mut router);
    let got = router.collect(sub).unwrap();
    let got = forwards(&got);
    assert_eq!(got.len(), 2);
    assert_eq!(got[0].payload, Bytes::from_static(b"3"));
    let sent = router.send_all_alerts();
    assert_eq!(sent.len(), 1);
    let text = "Read cursor start jumped from (0, 0) to (3, 3) on t".to_string();
    let expected = Alert::error("slow".to_string(), AlertError::CursorJump(text));
    assert_eq!(sent[0].1, expected);
}

#[test]
fn reports_tell_what_the_router_knows() {
    let mut router = Router::new(0, config());
    match router.retrieve_metrics(MetricsRequest::Config) {
        MetricsReply::Config(c) => assert_eq!(c, config()),
        reply => panic!("{reply:?}"),
    }
    let a = connect(&mut router, "a", true);
    let b = connect(&mut router, "b", true);
    match router.retrieve_metrics(MetricsRequest::ReadyQueue) {
        MetricsReply::ReadyQueue(queue) => assert_eq!(queue, vec![a, b]),
        reply => panic!("{reply:?}"),
    }
    subscribe(&mut router, a, "t", QoS::AtMostOnce);
    subscribe(&mut router, b, "t", QoS::AtMostOnce);
    subscribe(&mut router, b, "u", QoS::AtMostOnce);
    match router.retrieve_metrics(MetricsRequest::Subscriptions) {
        MetricsReply::Subscriptions(mut rows) => {
            rows.sort();
            let both = vec!["a".to_string(), "b".to_string()];
            let one = vec!["b".to_string()];
            assert_eq!(rows, vec![("t".to_string(), both), ("u".to_string(), one)]);
        }
        reply => panic!("{reply:?}"),
    }
    match router.retrieve_metrics(MetricsRequest::Waiters("none".to_string())) {
        MetricsReply::Waiters(None) => {}
        reply => panic!("{reply:?}"),
    }
    match router.retrieve_metrics(MetricsRequest::Connection("c".to_string())) {
        MetricsReply::Connection(None) => {}
        reply => panic!("{reply:?}"),
    }
}

#[test]
fn rounds_of_the_router() {
    let mut router = Router::new(0, config());
    assert_eq!(router.begin_round_at(Instant::now()), Progress::Waiting);
    let (progress, _) =
        router.receive_at(Progress::Waiting, Received::Empty, &moment("1")).unwrap();
    assert_eq!(progress, Progress::Waiting);
    let event = Event::Connect {
        connection: connection(true),
        incoming: Incoming::new("a".to_string()),
        outgoing: Outgoing::new("a".to_string()),
    };
    let (progress, reply) = router
        .receive_at(Progress::Waiting, Received::Event(0, event), &moment("1"))
        .unwrap();
    assert_eq!(progress, Progress::Polling(500));
    assert!(matches!(reply, Reply::Nothing));
    let (progress, _) =
        router.receive_at(progress, Received::Event(0, Event::Ready), &moment("1")).unwrap();
    assert_eq!(progress, Progress::Polling(499));
    let (last, _) = router
        .receive_at(Progress::Polling(1), Received::Event(0, Event::Ready), &moment("1"))
        .unwrap();
    assert_eq!(last, Progress::Done);
    assert_eq!(Progress::Waiting.advance(), Progress::Polling(500));
    assert_eq!(Progress::Polling(2).advance(), Progress::Polling(1));
    assert_eq!(Progress::Polling(1).advance(), Progress::Done);
    let (progress, _) = router.receive_at(progress, Received::Empty, &moment("1")).unwrap();
    assert_eq!(progress, Progress::Done);
    assert_eq!(router.finish_round_at(Instant::now()).len(), 0);
    assert_eq!(router.collect(0).unwrap().len(), 1);
    router.events(0, Event::Disconnect { execute_will: false });
    assert_eq!(router.begin_round_at(Instant::now()), Progress::Waiting);
    let gone = router.receive_at(Progress::Waiting, Received::Disconnected, &moment("1"));
    assert!(matches!(gone, Err(RouterError::Recv)));
    let gone = router.receive_at(Progress::Polling(3), Received::Disconnected, &moment("1"));
    assert!(matches!(gone, Err(RouterError::Disconnected)));
}

#[test]
fn clocks_are_read_where_no_time_is_given() {
    let mut router = Router::new(0, config());
    router.handle_new_connection(
        connection(true),
        Incoming::new("a".to_string()),
        Outgoing::new("a".to_string()),
    );
    match router.retrieve_metrics(MetricsRequest::Connection("a".to_string())) {
        MetricsReply::Connection(Some((events, _))) => {
            let text = events.events[0].clone();
            let time = text
                .strip_prefix("connection at ")
                .and_then(|t| t.strip_suffix(", clean = true"))
                .unwrap();
            // milliseconds since 1970, some time after 2020
            assert!(time.parse::<u128>().unwrap() > 1_577_836_800_000);
        }
        reply => panic!("{reply:?}"),
    }
}
