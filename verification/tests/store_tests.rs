use mycelial_state::store::Store;
use mycelial_state::types::{
    CreditRelationship, Message, MessageType, PeerId, PeerInfo, Reputation, StateError,
};

fn peer(id: &str, key: &str, name: Option<&str>, seen: i64) -> PeerInfo {
    PeerInfo {
        id: PeerId(id.to_string()),
        public_key: key.to_string(),
        addresses: vec![],
        first_seen: seen,
        last_seen: seen,
        name: name.map(|s| s.to_string()),
    }
}

#[test]
fn test_peer_crud() {
    let mut store = Store::new();

    let mut peer_info = peer("test_peer_123", "3mJr7AoUXx2Wqd5s8N4Df", Some("Test Peer"), 1000);
    peer_info.addresses = vec!["/ip4/127.0.0.1/tcp/4001".to_string()];

    let reputation = Reputation::new(750);

    // Store peer
    store.upsert_peer(&peer_info, Some(&reputation)).unwrap();

    // Retrieve peer
    let (retrieved, rep) = store.get_peer("test_peer_123").unwrap().unwrap();
    assert_eq!(retrieved.id.as_str(), "test_peer_123");
    assert_eq!(retrieved.name, Some("Test Peer".to_string()));
    assert_eq!(rep.score_permille, 750);

    // List peers
    let peers = store.list_peers().unwrap();
    assert_eq!(peers.len(), 1);

    // Delete peer
    store.delete_peer("test_peer_123").unwrap();
    assert!(store.get_peer("test_peer_123").unwrap().is_none());
}

#[test]
fn test_message_crud() {
    let mut store = Store::new();

    // First create the sender peer (messages demand a known sender)
    let sender = PeerId("sender_peer".to_string());
    let sender_info = peer("sender_peer", "2wMHpFAjZbL9GkXP8n3E1", Some("Sender"), 1000);
    store.upsert_peer(&sender_info, None).unwrap();

    // Create message
    let message = Message::new(MessageType::Content, sender.clone(), b"Hello, world!".to_vec());
    let msg_id = message.id;

    // Store message
    store.store_message(&message).unwrap();

    // Retrieve message
    let retrieved = store.get_message(msg_id).unwrap().unwrap();
    assert_eq!(retrieved.id, msg_id);
    assert_eq!(retrieved.sender.as_str(), "sender_peer");
    assert_eq!(retrieved.payload, b"Hello, world!");

    // List messages from sender
    let messages = store.list_messages_from("sender_peer", 10).unwrap();
    assert_eq!(messages.len(), 1);
}

#[test]
fn test_credit_relationship_crud() {
    let mut store = Store::new();

    // First create the peer records
    let creditor = PeerId("creditor_peer".to_string());
    let debtor = PeerId("debtor_peer".to_string());

    let creditor_info = peer("creditor_peer", "2wMHpFAjZbL9GkXP8n3E1", Some("Creditor"), 1000);
    store.upsert_peer(&creditor_info, None).unwrap();

    let debtor_info = peer("debtor_peer", "4xNKpGBkZcM5HjYQ9o7F2", Some("Debtor"), 1000);
    store.upsert_peer(&debtor_info, None).unwrap();

    // Create credit relationship
    let rel = CreditRelationship::new(creditor.clone(), debtor.clone(), 100);

    // Store relationship
    let rel_id = store.upsert_credit_relationship(&rel).unwrap();

    // Retrieve relationship
    let retrieved = store.get_credit_relationship(&rel_id).unwrap().unwrap();
    assert_eq!(retrieved.creditor.as_str(), "creditor_peer");
    assert_eq!(retrieved.debtor.as_str(), "debtor_peer");
    assert_eq!(retrieved.credit_limit, 100);
    assert_eq!(retrieved.balance, 0);

    // Get between peers
    let retrieved = store
        .get_credit_relationship_between("creditor_peer", "debtor_peer")
        .unwrap()
        .unwrap();
    assert!(retrieved.active);

    // List for peer
    let rels = store.list_credit_relationships_for("creditor_peer").unwrap();
    assert_eq!(rels.len(), 1);
}

#[test]
fn test_sync_values() {
    let mut store = Store::new();

    // Set value
    store.set_sync_value("test_key", b"test_value").unwrap();

    // Get value
    let (value, version) = store.get_sync_value("test_key").unwrap().unwrap();
    assert_eq!(value, b"test_value");
    assert_eq!(version, 1);

    // Update value
    store.set_sync_value("test_key", b"updated_value").unwrap();
    let (value, version) = store.get_sync_value("test_key").unwrap().unwrap();
    assert_eq!(value, b"updated_value");
    assert_eq!(version, 2);

    // Delete value
    store.delete_sync_value("test_key").unwrap();
    assert!(store.get_sync_value("test_key").unwrap().is_none());
}

#[test]
fn test_trusted_peers() {
    let mut store = Store::new();

    // Create peers with different reputation scores
    let test_keys = [
        "2wMHpFAjZbL9GkXP8n3E0",
        "2wMHpFAjZbL9GkXP8n3E1",
        "2wMHpFAjZbL9GkXP8n3E2",
        "2wMHpFAjZbL9GkXP8n3E3",
        "2wMHpFAjZbL9GkXP8n3E4",
    ];
    for i in 0..5u32 {
        let peer_info = peer(&format!("peer_{}", i), test_keys[i as usize], None, 1000);
        let reputation = Reputation::new(200 + i * 150); // 200, 350, 500, 650, 800

        store.upsert_peer(&peer_info, Some(&reputation)).unwrap();
    }

    // Get trusted peers (threshold 0.5)
    let trusted = store.list_trusted_peers(500).unwrap();
    assert_eq!(trusted.len(), 3); // peer_2, peer_3, peer_4
    // Ordered by score descending
    assert_eq!(trusted[0].1.score_permille, 800);
    assert_eq!(trusted[1].1.score_permille, 650);
    assert_eq!(trusted[2].1.score_permille, 500);
}

#[test]
fn list_peers_orders_by_last_seen() {
    let mut store = Store::new();
    store.upsert_peer(&peer("old", "k1", None, 100), None).unwrap();
    store.upsert_peer(&peer("new", "k2", None, 300), None).unwrap();
    store.upsert_peer(&peer("mid", "k3", None, 200), None).unwrap();
    let peers = store.list_peers().unwrap();
    assert_eq!(peers.len(), 3);
    assert_eq!(peers[0].0.id.as_str(), "new");
    assert_eq!(peers[1].0.id.as_str(), "mid");
    assert_eq!(peers[2].0.id.as_str(), "old");
}

#[test]
fn upsert_keeps_name_and_reputation_on_reannounce() {
    let mut store = Store::new();
    store
        .upsert_peer(&peer("p", "k", Some("Named"), 100), Some(&Reputation::new(900)))
        .unwrap();
    // Re-announced without a name and without a reputation.
    store.upsert_peer(&peer("p", "k2", None, 200), None).unwrap();
    let (info, rep) = store.get_peer("p").unwrap().unwrap();
    assert_eq!(info.name, Some("Named".to_string()));
    assert_eq!(info.public_key, "k2");
    assert_eq!(info.first_seen, 100);
    assert_eq!(info.last_seen, 200);
    assert_eq!(rep.score_permille, 900);
}

#[test]
fn upsert_deduplicates_addresses() {
    let mut store = Store::new();
    let mut info = peer("p", "k", None, 100);
    info.addresses = vec!["a".to_string(), "b".to_string(), "a".to_string()];
    store.upsert_peer(&info, None).unwrap();
    let (stored, _) = store.get_peer("p").unwrap().unwrap();
    assert_eq!(stored.addresses, vec!["a".to_string(), "b".to_string()]);
}

#[test]
fn update_reputation_of_missing_peer_is_not_found() {
    let mut store = Store::new();
    let err = store.update_peer_reputation("nobody", &Reputation::new(500)).unwrap_err();
    match err {
        StateError::NotFound { entity, id } => {
            assert_eq!(entity, "peer");
            assert_eq!(id, "nobody");
        }
        other => panic!("unexpected error {:?}", other),
    }
}

#[test]
fn store_message_demands_known_sender() {
    let mut store = Store::new();
    let message = Message::new_at(
        MessageType::Content,
        PeerId("stranger".to_string()),
        b"hi".to_vec(),
        1,
        100,
    );
    let err = store.store_message(&message).unwrap_err();
    match err {
        StateError::Integrity(sender) => assert_eq!(sender, "stranger"),
        other => panic!("unexpected error {:?}", other),
    }
    assert!(store.get_message(1).unwrap().is_none());
}

#[test]
fn store_message_twice_keeps_one_row() {
    let mut store = Store::new();
    store.upsert_peer(&peer("s", "k", None, 100), None).unwrap();
    let m = Message::new_at(MessageType::Content, PeerId("s".to_string()), b"x".to_vec(), 9, 50);
    let again = m.clone();
    store.store_message(&m).unwrap();
    store.store_message(&again).unwrap();
    let recent = store.list_recent_messages(10).unwrap();
    assert_eq!(recent.len(), 1);
    assert_eq!(recent[0].id, 9);
}

#[test]
fn prune_messages_removes_old_rows() {
    let mut store = Store::new();
    store.upsert_peer(&peer("s", "k", None, 100), None).unwrap();
    let old_msg = Message::new_at(MessageType::Content, PeerId("s".to_string()), b"o".to_vec(), 1, 100);
    let new_msg = Message::new_at(MessageType::Content, PeerId("s".to_string()), b"n".to_vec(), 2, 900);
    store.store_message(&old_msg).unwrap();
    store.store_message(&new_msg).unwrap();
    // now = 1000, keep anything younger than 500 seconds
    let removed = store.prune_messages(500, 1000).unwrap();
    assert_eq!(removed, 1);
    assert!(store.get_message(1).unwrap().is_none());
    assert!(store.get_message(2).unwrap().is_some());
}

#[test]
fn list_messages_by_type_filters_and_limits() {
    let mut store = Store::new();
    store.upsert_peer(&peer("s", "k", None, 100), None).unwrap();
    let a = Message::new_at(MessageType::Content, PeerId("s".to_string()), b"a".to_vec(), 1, 10);
    let b = Message::new_at(MessageType::Direct, PeerId("s".to_string()), b"b".to_vec(), 2, 20);
    let c = Message::new_at(MessageType::Content, PeerId("s".to_string()), b"c".to_vec(), 3, 30);
    store.store_message(&a).unwrap();
    store.store_message(&b).unwrap();
    store.store_message(&c).unwrap();
    let contents = store.list_messages_by_type(&MessageType::Content, 10).unwrap();
    assert_eq!(contents.len(), 2);
    assert_eq!(contents[0].id, 3);
    assert_eq!(contents[1].id, 1);
    let limited = store.list_messages_by_type(&MessageType::Content, 1).unwrap();
    assert_eq!(limited.len(), 1);
    assert_eq!(limited[0].id, 3);
}

#[test]
fn credit_upsert_keeps_established_time() {
    let mut store = Store::new();
    let first = CreditRelationship::new_at(
        PeerId("c".to_string()),
        PeerId("d".to_string()),
        100,
        500,
    );
    store.upsert_credit_relationship(&first).unwrap();
    let mut second = CreditRelationship::new_at(
        PeerId("c".to_string()),
        PeerId("d".to_string()),
        200,
        900,
    );
    second.balance = 25;
    store.upsert_credit_relationship(&second).unwrap();
    let row = store.get_credit_relationship_between("c", "d").unwrap().unwrap();
    assert_eq!(row.credit_limit, 200);
    assert_eq!(row.balance, 25);
    assert_eq!(row.established, 500);
    assert_eq!(row.last_transaction, 900);
}

#[test]
fn credit_transactions_append_to_the_log() {
    let mut store = Store::new();
    store
        .record_credit_transaction_at("c_d", 40, 40, Some("first"), 11, 100)
        .unwrap();
    store.record_credit_transaction("c_d", -15, 25, None).unwrap();
    let log = store.list_credit_transactions_for("c_d");
    assert_eq!(log.len(), 2);
    assert_eq!(log[0].amount, 40);
    assert_eq!(log[0].description, Some("first".to_string()));
    assert_eq!(log[1].amount, -15);
    assert_eq!(log[1].balance_after, 25);
    assert_eq!(store.list_credit_transactions_for("other").len(), 0);
}

#[test]
fn put_sync_value_at_adopts_the_given_version() {
    let mut store = Store::new();
    store.put_sync_value_at("k", b"v", 7).unwrap();
    let (value, version) = store.get_sync_value("k").unwrap().unwrap();
    assert_eq!(value, b"v");
    assert_eq!(version, 7);
}
