use mycelial_state::rows::{
    message_type_of, message_type_tag, row_to_credit_relationship, row_to_message,
    row_to_peer_info, row_to_reputation, CreditRow, KeyColumn, MessageRow, PeerRow,
};
use mycelial_state::types::{MessageType, StateError};

fn peer_row() -> PeerRow {
    PeerRow {
        peer_id: "p1".to_string(),
        public_key: KeyColumn::Text("3mJr7AoUXx2Wqd5s8N4Df".to_string()),
        display_name: Some("Named".to_string()),
        addresses_json: "[\"/ip4/127.0.0.1/tcp/4001\",\"/ip6/::1/tcp/4001\"]".to_string(),
        score_permille: 750,
        successful_interactions: 3,
        failed_interactions: 1,
        reputation_history_json: "[[800,5],[750,9]]".to_string(),
        first_seen: 100,
        last_seen: 200,
    }
}

#[test]
fn peer_row_decodes_addresses_from_json() {
    let info = row_to_peer_info(peer_row(), 999).unwrap();
    assert_eq!(info.id.as_str(), "p1");
    assert_eq!(info.public_key, "3mJr7AoUXx2Wqd5s8N4Df");
    assert_eq!(
        info.addresses,
        vec!["/ip4/127.0.0.1/tcp/4001".to_string(), "/ip6/::1/tcp/4001".to_string()]
    );
    assert_eq!(info.first_seen, 100);
    assert_eq!(info.last_seen, 200);
    assert_eq!(info.name, Some("Named".to_string()));
}

#[test]
fn bad_addresses_json_is_a_deserialization_error() {
    let mut row = peer_row();
    row.addresses_json = "not json".to_string();
    match row_to_peer_info(row, 999) {
        Err(StateError::Deserialization(_)) => {}
        other => panic!("expected a deserialization error, got {:?}", other),
    }
}

#[test]
fn legacy_blob_key_is_reencoded_to_base58() {
    let mut row = peer_row();
    // The bytes [0, 60, 23, 110] encode to "1MBgH" in the Bitcoin alphabet.
    row.public_key = KeyColumn::Blob(vec![0, 60, 23, 110]);
    let info = row_to_peer_info(row, 999).unwrap();
    assert_eq!(info.public_key, "1MBgH");
}

#[test]
fn out_of_range_timestamp_falls_back_to_now() {
    let mut row = peer_row();
    row.first_seen = i64::MIN;
    let info = row_to_peer_info(row, 999).unwrap();
    assert_eq!(info.first_seen, 999);
    assert_eq!(info.last_seen, 200);
}

#[test]
fn reputation_row_decodes_history_pairs() {
    let rep = row_to_reputation(&peer_row(), 999).unwrap();
    assert_eq!(rep.score_permille, 750);
    assert_eq!(rep.successful_interactions, 3);
    assert_eq!(rep.failed_interactions, 1);
    assert_eq!(rep.history.len(), 2);
    assert_eq!(rep.history[0].score_permille, 800);
    assert_eq!(rep.history[0].timestamp, 5);
    assert_eq!(rep.history[1].score_permille, 750);
    assert_eq!(rep.history[1].timestamp, 9);
}

#[test]
fn bad_history_json_is_a_deserialization_error() {
    let mut row = peer_row();
    row.reputation_history_json = "{\"oops\":1}".to_string();
    match row_to_reputation(&row, 999) {
        Err(StateError::Deserialization(_)) => {}
        other => panic!("expected a deserialization error, got {:?}", other),
    }
}

#[test]
fn out_of_range_score_is_clamped() {
    let mut row = peer_row();
    row.score_permille = 5000;
    let rep = row_to_reputation(&row, 999).unwrap();
    assert_eq!(rep.score_permille, 1000);
}

#[test]
fn message_row_roundtrips_through_uuid_text() {
    let row = MessageRow {
        id: "00000000-0000-0000-0000-00000000002a".to_string(),
        message_type: "Content".to_string(),
        sender_peer_id: "s".to_string(),
        recipient_peer_id: None,
        payload: b"x".to_vec(),
        signature: None,
        timestamp: 50,
    };
    let m = row_to_message(row, 999).unwrap();
    assert_eq!(m.id, 42);
    assert_eq!(m.message_type, MessageType::Content);
    assert_eq!(m.timestamp, 50);
}

#[test]
fn bad_uuid_is_a_deserialization_error() {
    let row = MessageRow {
        id: "not-a-uuid".to_string(),
        message_type: "Content".to_string(),
        sender_peer_id: "s".to_string(),
        recipient_peer_id: None,
        payload: vec![],
        signature: None,
        timestamp: 50,
    };
    match row_to_message(row, 999) {
        Err(StateError::Deserialization(_)) => {}
        other => panic!("expected a deserialization error, got {:?}", other),
    }
}

#[test]
fn unknown_message_tag_falls_back_to_system() {
    assert_eq!(message_type_of("Discovery"), MessageType::Discovery);
    assert_eq!(message_type_of("Governance"), MessageType::Governance);
    assert_eq!(message_type_of("Sideways"), MessageType::System);
    assert_eq!(message_type_tag(&MessageType::Direct), "Direct");
    assert_eq!(message_type_tag(&MessageType::System), "System");
}

#[test]
fn credit_row_always_decodes() {
    let row = CreditRow {
        creditor_peer_id: "c".to_string(),
        debtor_peer_id: "d".to_string(),
        credit_limit: 100,
        balance: -5,
        active: 1,
        established: 10,
        last_transaction: i64::MIN,
    };
    let rel = row_to_credit_relationship(row, 999).unwrap();
    assert_eq!(rel.creditor.as_str(), "c");
    assert_eq!(rel.balance, -5);
    assert!(rel.active);
    assert_eq!(rel.established, 10);
    assert_eq!(rel.last_transaction, 999);
}
