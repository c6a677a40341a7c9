use mycelial_state::classify::{classify_topic, EconomicsFamily, TopicClass};
use mycelial_state::fanout::{EventBus, Received};
use mycelial_state::node::{DashboardEvent, NetworkEvent, Node};
use mycelial_state::types::PeerId;
use mycelial_state::update::{PeerInfoUpdate, StateUpdate};

fn new_node() -> Node {
    Node::new(PeerId("local".to_string()), "tester".to_string())
}

#[test]
fn fanout_slow_consumer_sees_gap_then_newest_window() {
    // One subscriber, 300 events published without receiving: the next
    // receive observes a dropped range of 44, then the newest 256 events
    // arrive in order, and no send ever blocked.
    let mut bus: EventBus<u32> = EventBus::new(256);
    let sub = bus.subscribe();
    for i in 0..300u32 {
        bus.send(i);
    }
    match bus.recv(sub) {
        Received::Lagged(missed) => assert_eq!(missed, 44),
        other => panic!("expected a gap signal, got {:?}", other),
    }
    for i in 44..300u32 {
        match bus.recv(sub) {
            Received::Event(v) => assert_eq!(*v, i),
            other => panic!("expected event {}, got {:?}", i, other),
        }
    }
    match bus.recv(sub) {
        Received::Empty => {}
        other => panic!("expected nothing more, got {:?}", other),
    }
}

#[test]
fn fanout_sends_succeed_without_subscribers() {
    let mut bus: EventBus<u32> = EventBus::new(4);
    for i in 0..10u32 {
        bus.send(i);
    }
    let sub = bus.subscribe();
    match bus.recv(sub) {
        Received::Empty => {}
        other => panic!("a late subscriber starts at the present, got {:?}", other),
    }
}

#[test]
fn fanout_subscribers_have_independent_cursors() {
    let mut bus: EventBus<u32> = EventBus::new(8);
    let a = bus.subscribe();
    bus.send(1);
    let b = bus.subscribe();
    bus.send(2);
    match bus.recv(a) {
        Received::Event(v) => assert_eq!(*v, 1),
        other => panic!("got {:?}", other),
    }
    match bus.recv(b) {
        Received::Event(v) => assert_eq!(*v, 2),
        other => panic!("got {:?}", other),
    }
    match bus.recv(a) {
        Received::Event(v) => assert_eq!(*v, 2),
        other => panic!("got {:?}", other),
    }
}

#[test]
fn peer_connected_stores_peer_and_announces_it() {
    let mut node = new_node();
    let sub = node.bus.subscribe();
    let event = NetworkEvent::PeerConnected {
        peer_id: "abcdefghijkl".to_string(),
        num_connections: 1,
    };
    let out = node.handle_network_event(&event, 500).unwrap();
    assert!(out.is_none());

    let (info, rep) = node.store.get_peer("abcdefghijkl").unwrap().unwrap();
    assert_eq!(info.public_key, "abcdefghijkl");
    assert_eq!(info.name, Some("Peer-abcdefgh".to_string()));
    assert_eq!(info.first_seen, 500);
    assert_eq!(rep.score_permille, 500);

    let (cached_info, _) = node.cache.peers.get("abcdefghijkl").unwrap();
    assert_eq!(cached_info.name, info.name);

    match node.bus.recv(sub) {
        Received::Event(DashboardEvent::PeerJoined { peer_id, name }) => {
            assert_eq!(peer_id, "abcdefghijkl");
            assert_eq!(name.clone(), Some("Peer-abcdefgh".to_string()));
        }
        other => panic!("expected a join event, got {:?}", other),
    }
}

#[test]
fn peer_disconnected_keeps_the_record() {
    let mut node = new_node();
    let sub = node.bus.subscribe();
    node.handle_network_event(
        &NetworkEvent::PeerConnected { peer_id: "p1".to_string(), num_connections: 1 },
        500,
    )
    .unwrap();
    node.handle_network_event(
        &NetworkEvent::PeerDisconnected { peer_id: "p1".to_string(), num_connections: 0 },
        501,
    )
    .unwrap();
    // The record survives the disconnect.
    assert!(node.store.get_peer("p1").unwrap().is_some());
    match node.bus.recv(sub) {
        Received::Event(DashboardEvent::PeerJoined { .. }) => {}
        other => panic!("got {:?}", other),
    }
    match node.bus.recv(sub) {
        Received::Event(DashboardEvent::PeerLeft { peer_id }) => assert_eq!(peer_id, "p1"),
        other => panic!("got {:?}", other),
    }
}

#[test]
fn chat_message_reaches_the_dashboard() {
    let mut node = new_node();
    let sub = node.bus.subscribe();
    let event = NetworkEvent::MessageReceived {
        message_id: 7,
        topic: "network-chat".to_string(),
        source: Some("abcdefghijkl".to_string()),
        data: b"hello there".to_vec(),
        timestamp_ms: 123456,
    };
    let out = node.handle_network_event(&event, 500).unwrap();
    assert!(out.is_none());
    assert_eq!(node.message_count, 1);
    match node.bus.recv(sub) {
        Received::Event(DashboardEvent::ChatMessage { from, from_name, content, timestamp, .. }) => {
            assert_eq!(from, "abcdefghijkl");
            assert_eq!(from_name, "Peer-abcdefgh");
            assert_eq!(content, "hello there");
            assert_eq!(*timestamp, 123456);
        }
        other => panic!("expected a chat event, got {:?}", other),
    }
}

#[test]
fn invalid_utf8_chat_payload_is_dropped() {
    let mut node = new_node();
    let sub = node.bus.subscribe();
    let event = NetworkEvent::MessageReceived {
        message_id: 7,
        topic: "network-chat".to_string(),
        source: None,
        data: vec![0xff, 0xfe, 0xfd],
        timestamp_ms: 1,
    };
    node.handle_network_event(&event, 500).unwrap();
    assert_eq!(node.message_count, 1);
    match node.bus.recv(sub) {
        Received::Empty => {}
        other => panic!("expected nothing, got {:?}", other),
    }
}

#[test]
fn economics_payload_is_handed_back_for_decoding() {
    let mut node = new_node();
    let event = NetworkEvent::MessageReceived {
        message_id: 9,
        topic: "econ.governance".to_string(),
        source: None,
        data: b"{}".to_vec(),
        timestamp_ms: 44,
    };
    let payload = node.handle_network_event(&event, 500).unwrap().unwrap();
    assert_eq!(payload.family, EconomicsFamily::Governance);
    assert_eq!(payload.message_id, 9);
    assert_eq!(payload.data, b"{}");
    assert_eq!(payload.timestamp_ms, 44);
}

#[test]
fn subscriptions_are_tracked() {
    let mut node = new_node();
    node.handle_network_event(&NetworkEvent::Subscribed { topic: "a".to_string() }, 1).unwrap();
    node.handle_network_event(&NetworkEvent::Subscribed { topic: "b".to_string() }, 2).unwrap();
    assert_eq!(node.subscribed_topics, vec!["a".to_string(), "b".to_string()]);
    node.handle_network_event(&NetworkEvent::Unsubscribed { topic: "a".to_string() }, 3).unwrap();
    assert_eq!(node.subscribed_topics, vec!["b".to_string()]);
}

#[test]
fn local_actions_apply_and_queue() {
    let mut node = new_node();
    let update = StateUpdate::PeerUpdate {
        peer_id: "p1".to_string(),
        info: PeerInfoUpdate {
            public_key: "k".to_string(),
            addresses: vec![],
            name: Some("me".to_string()),
        },
        timestamp: 100,
    };
    let accepted = node.apply_and_queue_local(update, 500).unwrap();
    assert!(accepted);
    // Applied locally through the same path a remote update takes...
    assert!(node.store.get_peer("p1").unwrap().is_some());
    // ...and queued for publication.
    let pending = node.sync.drain_pending_updates();
    assert_eq!(pending.len(), 1);
}

#[test]
fn local_action_applies_through_the_remote_path() {
    // The same update, applied locally twice: the second application is
    // rejected by last-writer-wins exactly as a remote duplicate would be,
    // yet both copies are queued for publication.
    let update = StateUpdate::PeerUpdate {
        peer_id: "p1".to_string(),
        info: PeerInfoUpdate {
            public_key: "k".to_string(),
            addresses: vec![],
            name: Some("me".to_string()),
        },
        timestamp: 100,
    };
    let mut node = new_node();
    assert!(node.apply_and_queue_local(update.clone(), 500).unwrap());
    assert!(!node.apply_and_queue_local(update, 501).unwrap());
    assert_eq!(node.sync.drain_pending_updates().len(), 2);
    let (info, _) = node.store.get_peer("p1").unwrap().unwrap();
    assert_eq!(info.last_seen, 500);
}

#[test]
fn classification_is_total_and_exclusive() {
    assert_eq!(
        classify_topic("econ.vouch", true),
        TopicClass::Economics(EconomicsFamily::Vouch)
    );
    assert_eq!(
        classify_topic("econ.credit", true),
        TopicClass::Economics(EconomicsFamily::Credit)
    );
    assert_eq!(
        classify_topic("econ.governance", true),
        TopicClass::Economics(EconomicsFamily::Governance)
    );
    assert_eq!(
        classify_topic("econ.resource", true),
        TopicClass::Economics(EconomicsFamily::Resource)
    );
    // An economics topic whose payload does not decode is opaque.
    assert_eq!(classify_topic("econ.vouch", false), TopicClass::Opaque);
    // Chat-like topics, by substring.
    assert_eq!(classify_topic("network-chat", true), TopicClass::ChatLike);
    assert_eq!(classify_topic("some-content-feed", false), TopicClass::ChatLike);
    assert_eq!(classify_topic("direct", true), TopicClass::ChatLike);
    // Everything else is opaque.
    assert_eq!(classify_topic("telemetry", true), TopicClass::Opaque);
    assert_eq!(classify_topic("", true), TopicClass::Opaque);
}
