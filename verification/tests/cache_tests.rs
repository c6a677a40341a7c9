use mycelial_state::cache::{CreditCache, MemoryCache, MessageCache, PeerCache, StateCache};
use mycelial_state::types::{CreditRelationship, Message, MessageType, PeerId, PeerInfo, Reputation};

fn peer_info(id: &str, key: &str) -> PeerInfo {
    PeerInfo {
        id: PeerId(id.to_string()),
        public_key: key.to_string(),
        addresses: vec![],
        first_seen: 1000,
        last_seen: 1000,
        name: None,
    }
}

#[test]
fn test_memory_cache() {
    let mut cache: MemoryCache<i32> = MemoryCache::new(10);

    cache.insert("key1".to_string(), 42);
    assert_eq!(cache.get("key1"), Some(&42));
    assert!(cache.contains("key1"));

    cache.remove("key1");
    assert!(!cache.contains("key1"));
}

#[test]
fn test_peer_cache() {
    let mut cache = PeerCache::new(10);

    let peer_info = peer_info("peer1", "2wMHpFAjZbL9GkXP8n3E1");
    let reputation = Reputation::new(800);

    cache.insert(peer_info, reputation);

    assert!(cache.contains("peer1"));
    let (info, rep) = cache.get("peer1").unwrap();
    assert_eq!(info.id.as_str(), "peer1");
    assert_eq!(rep.score_permille, 800);

    // Test trusted peers filter
    let trusted = cache.get_trusted(500);
    assert_eq!(trusted.len(), 1);
}

#[test]
fn test_message_cache() {
    let mut cache = MessageCache::new(10);

    let msg = Message::new(
        MessageType::Content,
        PeerId("sender".to_string()),
        b"Hello".to_vec(),
    );
    let msg_id = msg.id;

    cache.insert(msg);

    assert!(cache.contains(msg_id));
    let retrieved = cache.get(msg_id).unwrap();
    assert_eq!(retrieved.sender.as_str(), "sender");

    // Test sender index
    let from_sender = cache.get_from_sender("sender");
    assert_eq!(from_sender.len(), 1);
}

#[test]
fn test_credit_cache() {
    let mut cache = CreditCache::new(10);

    let rel = CreditRelationship::new(
        PeerId("creditor".to_string()),
        PeerId("debtor".to_string()),
        100,
    );

    cache.insert(rel);

    let retrieved = cache.get_between("creditor", "debtor").unwrap();
    assert_eq!(retrieved.credit_limit, 100);

    // Test peer index
    let for_creditor = cache.get_for_peer("creditor");
    assert_eq!(for_creditor.len(), 1);

    let for_debtor = cache.get_for_peer("debtor");
    assert_eq!(for_debtor.len(), 1);
}

#[test]
fn test_state_cache() {
    let cache = StateCache::new();

    let stats = cache.stats();
    assert_eq!(stats.peer_count, 0);
    assert_eq!(stats.message_count, 0);
    assert_eq!(stats.credit_count, 0);
}

#[test]
fn lru_evicts_least_recently_used() {
    let mut cache: MemoryCache<i32> = MemoryCache::new(2);
    cache.insert("a".to_string(), 1);
    cache.insert("b".to_string(), 2);
    // Touch "a" so "b" is now the least recently used.
    assert_eq!(cache.get("a"), Some(&1));
    cache.insert("c".to_string(), 3);
    assert!(cache.contains("a"));
    assert!(!cache.contains("b"));
    assert!(cache.contains("c"));
    assert_eq!(cache.len(), 2);
}

#[test]
fn peek_does_not_change_recency() {
    let mut cache: MemoryCache<i32> = MemoryCache::new(2);
    cache.insert("a".to_string(), 1);
    cache.insert("b".to_string(), 2);
    // Peek "a": it stays least recently used and is evicted next.
    assert_eq!(cache.peek("a"), Some(&1));
    cache.insert("c".to_string(), 3);
    assert!(!cache.contains("a"));
    assert!(cache.contains("b"));
    assert!(cache.contains("c"));
}

#[test]
fn sender_index_survives_eviction_soundly() {
    // Capacity one: inserting a second message evicts the first; the index
    // still names the evicted id but resolves nothing for it, and never a
    // message from another sender.
    let mut cache = MessageCache::new(1);
    let m1 = Message::new_at(MessageType::Content, PeerId("alice".to_string()), b"1".to_vec(), 1, 10);
    let m2 = Message::new_at(MessageType::Content, PeerId("bob".to_string()), b"2".to_vec(), 2, 20);
    cache.insert(m1);
    cache.insert(m2);
    let from_alice = cache.get_from_sender("alice");
    assert_eq!(from_alice.len(), 0);
    let from_bob = cache.get_from_sender("bob");
    assert_eq!(from_bob.len(), 1);
    assert_eq!(from_bob[0].sender.as_str(), "bob");
}

#[test]
fn message_cache_insert_is_idempotent() {
    let mut cache = MessageCache::new(10);
    let m = Message::new_at(MessageType::Content, PeerId("alice".to_string()), b"x".to_vec(), 7, 10);
    let again = m.clone();
    cache.insert(m);
    cache.insert(again);
    assert_eq!(cache.len(), 1);
    assert_eq!(cache.get_from_sender("alice").len(), 1);
}

#[test]
fn update_reputation_only_touches_cached_peers() {
    let mut cache = PeerCache::new(10);
    assert!(!cache.update_reputation("ghost", Reputation::new(900)));
    cache.insert(peer_info("p", "k"), Reputation::new(100));
    assert!(cache.update_reputation("p", Reputation::new(900)));
    let (_, rep) = cache.get("p").unwrap();
    assert_eq!(rep.score_permille, 900);
}

#[test]
fn credit_cache_get_active_filters() {
    let mut cache = CreditCache::new(10);
    let mut open_line = CreditRelationship::new_at(
        PeerId("a".to_string()),
        PeerId("b".to_string()),
        50,
        100,
    );
    open_line.active = true;
    let mut closed_line = CreditRelationship::new_at(
        PeerId("a".to_string()),
        PeerId("c".to_string()),
        60,
        100,
    );
    closed_line.active = false;
    cache.insert(open_line);
    cache.insert(closed_line);
    let active = cache.get_active();
    assert_eq!(active.len(), 1);
    assert_eq!(active[0].debtor.as_str(), "b");
}

#[test]
fn get_from_sender_returns_every_cached_message_of_the_sender() {
    let mut cache = MessageCache::new(10);
    let a1 = Message::new_at(MessageType::Content, PeerId("alice".to_string()), b"1".to_vec(), 1, 10);
    let a2 = Message::new_at(MessageType::Direct, PeerId("alice".to_string()), b"2".to_vec(), 2, 20);
    let b1 = Message::new_at(MessageType::Content, PeerId("bob".to_string()), b"3".to_vec(), 3, 30);
    cache.insert(a1);
    cache.insert(b1);
    cache.insert(a2);
    let from_alice = cache.get_from_sender("alice");
    assert_eq!(from_alice.len(), 2);
    assert!(from_alice.iter().all(|m| m.sender.as_str() == "alice"));
    let ids: Vec<u128> = from_alice.iter().map(|m| m.id).collect();
    assert!(ids.contains(&1));
    assert!(ids.contains(&2));
}

#[test]
fn get_for_peer_returns_every_relationship_of_the_peer() {
    let mut cache = CreditCache::new(10);
    cache.insert(CreditRelationship::new_at(
        PeerId("a".to_string()),
        PeerId("b".to_string()),
        10,
        100,
    ));
    cache.insert(CreditRelationship::new_at(
        PeerId("c".to_string()),
        PeerId("a".to_string()),
        20,
        100,
    ));
    cache.insert(CreditRelationship::new_at(
        PeerId("c".to_string()),
        PeerId("d".to_string()),
        30,
        100,
    ));
    let for_a = cache.get_for_peer("a");
    assert_eq!(for_a.len(), 2);
    assert!(for_a.iter().all(|r| r.creditor.as_str() == "a" || r.debtor.as_str() == "a"));
    let for_d = cache.get_for_peer("d");
    assert_eq!(for_d.len(), 1);
    assert_eq!(for_d[0].creditor.as_str(), "c");
}
