use mycelial_state::cache::StateCache;
use mycelial_state::store::Store;
use mycelial_state::sync::StateSync;
use mycelial_state::types::{PeerId, PeerInfo, Reputation};
use mycelial_state::update::{PeerInfoUpdate, StateUpdate};

fn peer(id: &str, key: &str, name: Option<&str>, seen: i64) -> PeerInfo {
    PeerInfo {
        id: PeerId(id.to_string()),
        public_key: key.to_string(),
        addresses: vec![],
        first_seen: seen,
        last_seen: seen,
        name: name.map(|s| s.to_string()),
    }
}

fn peer_update(id: &str, name: Option<&str>, ts: i64) -> StateUpdate {
    StateUpdate::PeerUpdate {
        peer_id: id.to_string(),
        info: PeerInfoUpdate {
            public_key: "3mJr7AoUXx2Wqd5s8N4Df".to_string(),
            addresses: vec![],
            name: name.map(|s| s.to_string()),
        },
        timestamp: ts,
    }
}

#[test]
fn test_state_sync_create_updates() {
    let mut sync = StateSync::new("local_peer".to_string());

    // Create peer update
    let peer_info = peer("test_peer", "3mJr7AoUXx2Wqd5s8N4Df", None, 1000);

    let update = sync.create_peer_update(&peer_info);
    match update {
        StateUpdate::PeerUpdate { peer_id, .. } => {
            assert_eq!(peer_id, "test_peer");
        }
        _ => panic!("Wrong update type"),
    }

    // Check vector clock was incremented
    assert_eq!(sync.get_clock().get("local_peer"), 1);
}

#[test]
fn peer_upsert_lww_rejects_older_timestamp() {
    // Apply a peer update named A at time 100, then one named B at time 50:
    // the stored name stays A and the second application reports false.
    let mut sync = StateSync::new("local".to_string());
    let mut store = Store::new();
    let mut cache = StateCache::new();

    let first = peer_update("p1", Some("A"), 100);
    let second = peer_update("p1", Some("B"), 50);

    let accepted = sync.apply_update_at(&first, &mut store, &mut cache, 1000).unwrap();
    assert!(accepted);
    let rejected = sync.apply_update_at(&second, &mut store, &mut cache, 1001).unwrap();
    assert!(!rejected);

    let (info, _) = store.get_peer("p1").unwrap().unwrap();
    assert_eq!(info.name, Some("A".to_string()));
}

#[test]
fn same_peer_update_twice_is_rejected_and_state_is_unchanged() {
    let mut sync = StateSync::new("local".to_string());
    let mut store = Store::new();
    let mut cache = StateCache::new();

    let update = peer_update("p1", Some("A"), 100);
    let again = update.clone();

    assert!(sync.apply_update_at(&update, &mut store, &mut cache, 1000).unwrap());
    let (info_before, _) = store.get_peer("p1").unwrap().unwrap();

    assert!(!sync.apply_update_at(&again, &mut store, &mut cache, 2000).unwrap());
    let (info_after, _) = store.get_peer("p1").unwrap().unwrap();
    assert_eq!(info_after.name, info_before.name);
    assert_eq!(info_after.last_seen, info_before.last_seen);
    assert_eq!(info_after.public_key, info_before.public_key);
}

#[test]
fn reputation_merge_takes_componentwise_max() {
    // Start with successful=3, failed=1; apply successful=5, failed=0.
    // Expected: successful=5, failed=1, score 5/6 in thousandths = 833.
    let mut sync = StateSync::new("local".to_string());
    let mut store = Store::new();
    let mut cache = StateCache::new();

    let mut rep = Reputation::new(750);
    rep.successful_interactions = 3;
    rep.failed_interactions = 1;
    store.upsert_peer(&peer("p1", "k", None, 100), Some(&rep)).unwrap();

    let update = StateUpdate::ReputationUpdate {
        peer_id: "p1".to_string(),
        successful_interactions: 5,
        failed_interactions: 0,
        timestamp: 200,
    };
    let accepted = sync.apply_update_at(&update, &mut store, &mut cache, 1000).unwrap();
    assert!(accepted);

    let (_, merged) = store.get_peer("p1").unwrap().unwrap();
    assert_eq!(merged.successful_interactions, 5);
    assert_eq!(merged.failed_interactions, 1);
    assert_eq!(merged.score_permille, 833);
}

#[test]
fn reputation_update_without_growth_is_rejected() {
    let mut sync = StateSync::new("local".to_string());
    let mut store = Store::new();
    let mut cache = StateCache::new();

    let mut rep = Reputation::new(500);
    rep.successful_interactions = 3;
    rep.failed_interactions = 1;
    store.upsert_peer(&peer("p1", "k", None, 100), Some(&rep)).unwrap();

    let update = StateUpdate::ReputationUpdate {
        peer_id: "p1".to_string(),
        successful_interactions: 3,
        failed_interactions: 1,
        timestamp: 200,
    };
    assert!(!sync.apply_update_at(&update, &mut store, &mut cache, 1000).unwrap());
}

#[test]
fn reputation_update_for_unknown_peer_is_dropped() {
    let mut sync = StateSync::new("local".to_string());
    let mut store = Store::new();
    let mut cache = StateCache::new();

    let update = StateUpdate::ReputationUpdate {
        peer_id: "nobody".to_string(),
        successful_interactions: 5,
        failed_interactions: 0,
        timestamp: 200,
    };
    assert!(!sync.apply_update_at(&update, &mut store, &mut cache, 1000).unwrap());
    assert_eq!(store.count_peers().unwrap(), 0);
}

#[test]
fn credit_update_tolerates_unknown_endpoints() {
    // With no peer rows at all, a credit update is accepted: the row is
    // persisted and the cache is populated.
    let mut sync = StateSync::new("local".to_string());
    let mut store = Store::new();
    let mut cache = StateCache::new();

    let update = StateUpdate::CreditUpdate {
        creditor: "c".to_string(),
        debtor: "d".to_string(),
        credit_limit: 100,
        balance: 0,
        active: true,
        timestamp: 777,
    };
    let accepted = sync.apply_update_at(&update, &mut store, &mut cache, 1000).unwrap();
    assert!(accepted);

    let row = store.get_credit_relationship_between("c", "d").unwrap().unwrap();
    assert_eq!(row.credit_limit, 100);
    assert!(row.active);
    assert_eq!(row.established, 777);

    let cached = cache.credits.get_between("c", "d").unwrap();
    assert_eq!(cached.credit_limit, row.credit_limit);
    assert_eq!(cached.balance, row.balance);
    assert_eq!(cached.established, row.established);
}

#[test]
fn kv_rollback_is_rejected() {
    // set_sync_value("k", "v1") gives version 1; a remote update carrying
    // version 1 loses the race and the local value stays.
    let mut sync = StateSync::new("local".to_string());
    let mut store = Store::new();
    let mut cache = StateCache::new();

    store.set_sync_value("k", b"v1").unwrap();
    let (_, version) = store.get_sync_value("k").unwrap().unwrap();
    assert_eq!(version, 1);

    let update = StateUpdate::KeyValueUpdate {
        key: "k".to_string(),
        value: b"v0".to_vec(),
        version: 1,
        timestamp: 50,
    };
    let accepted = sync.apply_update_at(&update, &mut store, &mut cache, 1000).unwrap();
    assert!(!accepted);

    let (value, version) = store.get_sync_value("k").unwrap().unwrap();
    assert_eq!(value, b"v1");
    assert_eq!(version, 1);
}

#[test]
fn kv_higher_version_wins_and_is_adopted() {
    let mut sync = StateSync::new("local".to_string());
    let mut store = Store::new();
    let mut cache = StateCache::new();

    store.set_sync_value("k", b"v1").unwrap();
    let update = StateUpdate::KeyValueUpdate {
        key: "k".to_string(),
        value: b"v9".to_vec(),
        version: 9,
        timestamp: 50,
    };
    assert!(sync.apply_update_at(&update, &mut store, &mut cache, 1000).unwrap());
    let (value, version) = store.get_sync_value("k").unwrap().unwrap();
    assert_eq!(value, b"v9");
    assert_eq!(version, 9);
}

#[test]
fn accepted_update_leaves_cache_equal_to_store() {
    let mut sync = StateSync::new("local".to_string());
    let mut store = Store::new();
    let mut cache = StateCache::new();

    let update = peer_update("p1", Some("A"), 100);
    assert!(sync.apply_update_at(&update, &mut store, &mut cache, 1000).unwrap());

    let (store_info, store_rep) = store.get_peer("p1").unwrap().unwrap();
    let (cache_info, cache_rep) = cache.peers.get("p1").unwrap();
    assert_eq!(cache_info.name, store_info.name);
    assert_eq!(cache_info.public_key, store_info.public_key);
    assert_eq!(cache_info.first_seen, store_info.first_seen);
    assert_eq!(cache_info.last_seen, store_info.last_seen);
    assert_eq!(cache_rep.score_permille, store_rep.score_permille);
    assert_eq!(cache_rep.successful_interactions, store_rep.successful_interactions);
}

#[test]
fn queued_updates_drain_in_order() {
    let mut sync = StateSync::new("local".to_string());
    sync.queue_update(peer_update("a", None, 1));
    sync.queue_update(peer_update("b", None, 2));
    let drained = sync.drain_pending_updates();
    assert_eq!(drained.len(), 2);
    match &drained[0] {
        StateUpdate::PeerUpdate { peer_id, .. } => assert_eq!(peer_id, "a"),
        _ => panic!("wrong kind"),
    }
    match &drained[1] {
        StateUpdate::PeerUpdate { peer_id, .. } => assert_eq!(peer_id, "b"),
        _ => panic!("wrong kind"),
    }
    assert_eq!(sync.drain_pending_updates().len(), 0);
}

#[test]
fn reputation_final_counters_are_max_of_all_inputs() {
    // Apply three reputation updates in two different orders: the final
    // counters agree and equal the component-wise maximum.
    let inputs: [(u64, u64); 3] = [(5, 0), (2, 7), (4, 4)];
    let orders: [[usize; 3]; 2] = [[0, 1, 2], [2, 1, 0]];
    for order in orders.iter() {
        let mut sync = StateSync::new("local".to_string());
        let mut store = Store::new();
        let mut cache = StateCache::new();
        let mut rep = Reputation::new(500);
        rep.successful_interactions = 3;
        rep.failed_interactions = 1;
        store.upsert_peer(&peer("p", "k", None, 100), Some(&rep)).unwrap();
        for &i in order.iter() {
            let (s, f) = inputs[i];
            let update = StateUpdate::ReputationUpdate {
                peer_id: "p".to_string(),
                successful_interactions: s,
                failed_interactions: f,
                timestamp: 1,
            };
            sync.apply_update_at(&update, &mut store, &mut cache, 1000).unwrap();
        }
        let (_, merged) = store.get_peer("p").unwrap().unwrap();
        assert_eq!(merged.successful_interactions, 5);
        assert_eq!(merged.failed_interactions, 7);
    }
}

#[test]
fn kv_accepted_versions_increase_and_max_wins() {
    let mut sync = StateSync::new("local".to_string());
    let mut store = Store::new();
    let mut cache = StateCache::new();

    let versions: [u64; 5] = [3, 1, 5, 5, 2];
    let mut accepted: Vec<u64> = Vec::new();
    for &v in versions.iter() {
        let update = StateUpdate::KeyValueUpdate {
            key: "k".to_string(),
            value: vec![v as u8],
            version: v,
            timestamp: 0,
        };
        if sync.apply_update_at(&update, &mut store, &mut cache, 0).unwrap() {
            accepted.push(v);
        }
    }
    assert_eq!(accepted, vec![3, 5]);
    let (_, stored) = store.get_sync_value("k").unwrap().unwrap();
    assert_eq!(stored, 5);
}
