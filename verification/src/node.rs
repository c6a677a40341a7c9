//! The replica coordinator: the one component that consumes network events
//! and local actions, writes through to the store and the cache, and fans
//! dashboard events out to subscribers.
//!
//! Economics payloads are recognized here but decoded outside the replica
//! (their schemas carry real-valued weights); the coordinator hands the raw
//! payload back to its caller, which decodes it and publishes the resulting
//! dashboard event through [`Node::publish_event`].

use vstd::prelude::*;
use vstd::string::{StrSliceExecFns, StringExecFns};

use crate::cache::StateCache;
use crate::classify::{econ_family, is_chat_like, spec_chat_like, spec_econ_family, EconomicsFamily};
use crate::fanout::EventBus;
use crate::outside::{bytes_to_string, uuid_text, uuid_to_string};
use crate::store::{has_peer, peer_index, Store};
use crate::sync::{
    applied_credit_update_then_queued, applied_kv_update_then_queued,
    applied_peer_update_then_queued, applied_reputation_update_then_queued, StateSync,
};
use crate::types::{PeerId, PeerInfo, StateError};
use crate::update::{StateUpdate, StateUpdateView};

verus! {

/// One entry of a resource pool ranking.
#[derive(Debug)]
pub struct ContributorEntry {
    pub peer_id: String,
    pub contribution: i64,
    pub percentage: i64,
}

/// The closed union of dashboard events. Identifiers are strings and
/// timestamps are millisecond integers: the fan-out is a serialization
/// boundary toward the dashboard. Amounts and weights are integral minor
/// units.
#[derive(Debug)]
pub enum DashboardEvent {
    PeerJoined { peer_id: String, name: Option<String> },
    PeerLeft { peer_id: String },
    ChatMessage {
        id: String,
        from: String,
        from_name: String,
        to: Option<String>,
        content: String,
        timestamp: i64,
    },
    VouchRequest { id: String, voucher: String, vouchee: String, weight: i64, timestamp: i64 },
    VouchAck {
        id: String,
        request_id: String,
        accepted: bool,
        new_reputation: Option<u32>,
        timestamp: i64,
    },
    ReputationUpdate { peer_id: String, new_score_permille: u32 },
    CreditLine {
        id: String,
        creditor: String,
        debtor: String,
        limit: i64,
        balance: i64,
        timestamp: i64,
    },
    CreditTransfer {
        id: String,
        from: String,
        to: String,
        amount: i64,
        memo: Option<String>,
        timestamp: i64,
    },
    Proposal {
        id: String,
        proposer: String,
        title: String,
        description: String,
        proposal_type: String,
        status: String,
        yes_votes: u32,
        no_votes: u32,
        quorum: u32,
        deadline: i64,
        timestamp: i64,
    },
    VoteCast {
        id: String,
        proposal_id: String,
        voter: String,
        vote: String,
        weight: i64,
        timestamp: i64,
    },
    ResourceContribution {
        id: String,
        peer_id: String,
        resource_type: String,
        amount: i64,
        unit: String,
        timestamp: i64,
    },
    ResourcePoolUpdate {
        resource_type: String,
        total_available: i64,
        total_used: i64,
        contributors: Vec<ContributorEntry>,
        timestamp: i64,
    },
}

/// The events the network transport hands to the coordinator.
#[derive(Debug)]
pub enum NetworkEvent {
    PeerConnected { peer_id: String, num_connections: u64 },
    PeerDisconnected { peer_id: String, num_connections: u64 },
    MessageReceived {
        message_id: u128,
        topic: String,
        source: Option<String>,
        data: Vec<u8>,
        timestamp_ms: i64,
    },
    ListeningOn { address: String },
    Subscribed { topic: String },
    Unsubscribed { topic: String },
    Started { peer_id: String },
    Stopped,
    DialFailed { peer_id: Option<String>, error: String },
    MdnsDiscovered { peers: Vec<(String, String)> },
}

/// An economics payload the coordinator recognized but leaves to its caller
/// to decode.
#[derive(Debug)]
pub struct EconPayload {
    pub family: EconomicsFamily,
    pub message_id: u128,
    pub source: Option<String>,
    pub data: Vec<u8>,
    pub timestamp_ms: i64,
}

/// The display name synthesized for a peer that connects without one:
/// `Peer-` and the first eight characters of its id.
pub open spec fn peer_display_name(id: Seq<char>) -> Seq<char> {
    "Peer-"@ + id.take(if id.len() < 8 {
        id.len() as int
    } else {
        8
    })
}

/// A replica node: the store, the cache kept in lockstep with it, the
/// conflict resolver, the dashboard fan-out, and the transport-facing
/// bookkeeping.
pub struct Node {
    pub local_peer_id: PeerId,
    pub node_name: String,
    pub store: Store,
    pub cache: StateCache,
    pub sync: StateSync,
    pub bus: EventBus<DashboardEvent>,
    pub message_count: u64,
    pub subscribed_topics: Vec<String>,
}

impl Node {
    pub open spec fn wf(&self) -> bool {
        &&& self.store.wf()
        &&& self.cache.wf()
        &&& self.sync.wf()
        &&& self.bus.wf()
    }

    /// A fresh node: empty store and caches, a fan-out retaining 256
    /// events, no subscriptions.
    pub fn new(local_peer_id: PeerId, node_name: String) -> (r: Self)
        ensures
            r.wf(),
            r.local_peer_id@ == local_peer_id@,
            r.node_name@ == node_name@,
            r.message_count == 0,
            r.bus.total() == 0,
            r.bus.cap() == 256,
            r.subscribed_topics@.len() == 0,
            r.store.peer_rows().len() == 0,
            r.store.message_rows().len() == 0,
            r.store.credit_rows().len() == 0,
            r.store.sync_rows().len() == 0,
            r.sync.pending() == Seq::<StateUpdateView>::empty(),
    {
        let sync_id = local_peer_id.0.clone();
        Node {
            local_peer_id,
            node_name,
            store: Store::new(),
            cache: StateCache::new(),
            sync: StateSync::new(sync_id),
            bus: EventBus::new(256),
            message_count: 0,
            subscribed_topics: Vec::new(),
        }
    }

    /// `Peer-` followed by the first eight characters of the id.
    fn display_name_for(peer_id: &str) -> (r: String)
        ensures
            r@ == peer_display_name(peer_id@),
    {
        let len_chars = peer_id.unicode_len();
        let k = if len_chars < 8 {
            len_chars
        } else {
            8
        };
        let short = peer_id.substring_char(0, k);
        let mut name = "Peer-".to_owned();
        name.append(short);
        proof {
            assert(name@ =~= peer_display_name(peer_id@));
        }
        name
    }

    /// Publish a dashboard event to the fan-out; used by the coordinator
    /// itself and by the decoder of economics payloads.
    pub fn publish_event(&mut self, event: DashboardEvent)
        requires
            old(self).wf(),
            old(self).bus.total() < u64::MAX,
        ensures
            final(self).wf(),
            final(self).bus.total() == old(self).bus.total() + 1,
            ({
                if old(self).bus.window().len() == old(self).bus.cap() {
                    final(self).bus.window() == old(self).bus.window().drop_first().push(event)
                } else {
                    final(self).bus.window() == old(self).bus.window().push(event)
                }
            }),
            final(self).bus.cursors_view() == old(self).bus.cursors_view(),
            final(self).bus.cap() == old(self).bus.cap(),
            final(self).store == old(self).store,
            final(self).cache == old(self).cache,
            final(self).sync == old(self).sync,
            final(self).message_count == old(self).message_count,
            final(self).subscribed_topics == old(self).subscribed_topics,
    {
        self.bus.send(event);
    }

    /// Handle a peer connection: store the peer (a known peer keeps its
    /// name and reputation), mirror it into the cache, announce it on the
    /// fan-out.
    fn on_peer_connected(&mut self, peer_id: &str, now: i64) -> (r: Result<(), StateError>)
        requires
            old(self).wf(),
            old(self).bus.total() < u64::MAX,
        ensures
            final(self).wf(),
            r is Ok,
            has_peer(final(self).store.peer_rows(), peer_id@),
            ({
                let rows = final(self).store.peer_rows();
                let row = rows[peer_index(rows, peer_id@)];
                &&& row.0.id == peer_id@
                &&& row.0.public_key == peer_id@
                &&& row.0.last_seen == now as int
                &&& (!has_peer(old(self).store.peer_rows(), peer_id@) ==> row.0.name == Some(
                    peer_display_name(peer_id@),
                ) && row.0.first_seen == now as int)
                &&& final(self).cache.peers.lookup(peer_id@) == Some(row)
            }),
            final(self).bus.total() == old(self).bus.total() + 1,
            final(self).bus.window().len() > 0,
            final(self).bus.window().last() matches DashboardEvent::PeerJoined { peer_id: p, name }
                && p@ == peer_id@ && (name matches Some(n) && n@ == peer_display_name(peer_id@)),
            final(self).store.message_rows() == old(self).store.message_rows(),
            final(self).store.credit_rows() == old(self).store.credit_rows(),
            final(self).store.sync_rows() == old(self).store.sync_rows(),
            final(self).sync == old(self).sync,
            final(self).message_count == old(self).message_count,
    {
        let name = Self::display_name_for(peer_id);
        let info = PeerInfo {
            id: PeerId(peer_id.to_owned()),
            public_key: peer_id.to_owned(),
            addresses: Vec::new(),
            first_seen: now,
            last_seen: now,
            name: Some(name.clone()),
        };
        proof {
            assert(info@.addresses =~= Seq::<Seq<char>>::empty());
        }
        match self.store.upsert_peer(&info, None) {
            Ok(()) => {},
            Err(e) => {
                return Err(e);
            },
        }
        proof {
            let rows = old(self).store.peer_rows();
            if has_peer(rows, peer_id@) {
                crate::store::lemma_peer_found(
                    self.store.peer_rows(),
                    peer_id@,
                    peer_index(rows, peer_id@),
                );
            } else {
                assert(self.store.peer_rows()[rows.len() as int].0.id == peer_id@) by {
                    assert(crate::store::spec_dedup(info@.addresses) =~= info@.addresses);
                }
                crate::store::lemma_peer_found(self.store.peer_rows(), peer_id@, rows.len() as int);
            }
            assert(crate::store::spec_dedup(info@.addresses) =~= info@.addresses);
        }
        match self.store.get_peer(peer_id) {
            Ok(Some((fetched_info, fetched_rep))) => {
                self.cache.peers.insert(fetched_info, fetched_rep);
            },
            Ok(None) => {
                proof {
                    assert(false);
                }
            },
            Err(e) => {
                return Err(e);
            },
        }
        self.bus.send(
            DashboardEvent::PeerJoined { peer_id: peer_id.to_owned(), name: Some(name) },
        );
        Ok(())
    }

    /// Handle one event from the network transport. Economics payloads are
    /// recognized, counted, and handed back for outside decoding; chat-like
    /// messages with valid UTF-8 payloads go to the fan-out; peer
    /// connections are stored and announced; subscriptions are tracked; the
    /// remaining events change nothing.
    pub fn handle_network_event(&mut self, event: &NetworkEvent, now: i64) -> (r: Result<
        Option<EconPayload>,
        StateError,
    >)
        requires
            old(self).wf(),
            old(self).bus.total() < u64::MAX,
        ensures
            final(self).wf(),
            r is Ok,
            match event {
                NetworkEvent::PeerConnected { peer_id, .. } => r matches Ok(None) && has_peer(
                    final(self).store.peer_rows(),
                    peer_id@,
                ) && final(self).cache.peers.lookup(peer_id@) == Some(
                    final(self).store.peer_rows()[peer_index(
                        final(self).store.peer_rows(),
                        peer_id@,
                    )],
                ) && final(self).bus.total() == old(self).bus.total() + 1,
                NetworkEvent::PeerDisconnected { peer_id, .. } => r matches Ok(None) && final(self).store == old(self).store && final(self).bus.total() == old(self).bus.total() + 1
                    && (final(self).bus.window().last() matches DashboardEvent::PeerLeft {
                    peer_id: p,
                } && p@ == peer_id@),
                NetworkEvent::MessageReceived { message_id, topic, source, data, timestamp_ms } => {
                    &&& final(self).message_count == (if old(self).message_count < u64::MAX {
                        (old(self).message_count + 1) as u64
                    } else {
                        old(self).message_count
                    })
                    &&& final(self).store == old(self).store
                    &&& (match spec_econ_family(topic@) {
                        Some(family) => r matches Ok(Some(p)) && p.family == family && p.message_id
                            == message_id && p.data@ == data@ && p.timestamp_ms == timestamp_ms
                            && final(self).bus.total() == old(self).bus.total(),
                        None => r matches Ok(None) && (
                        if spec_chat_like(topic@) && vstd::utf8::valid_utf8(data@) {
                            final(self).bus.total() == old(self).bus.total() + 1 && (final(self).bus.window().last() matches DashboardEvent::ChatMessage {
                                id,
                                content,
                                ..
                            } && id@ == uuid_text(*message_id) && vstd::utf8::encode_utf8(content@)
                                == data@)
                        } else {
                            final(self).bus.total() == old(self).bus.total()
                        }),
                    })
                },
                NetworkEvent::Subscribed { topic } => r matches Ok(None) && final(self).subscribed_topics.deep_view() == old(self).subscribed_topics.deep_view().push(
                    topic@,
                ) && *final(self) == (Node {
                    subscribed_topics: final(self).subscribed_topics,
                    ..*old(self)
                }),
                NetworkEvent::Unsubscribed { topic } => r matches Ok(None) && final(self).subscribed_topics.deep_view() == old(self).subscribed_topics.deep_view().filter(
                    keep_topic(topic@),
                ) && *final(self) == (Node {
                    subscribed_topics: final(self).subscribed_topics,
                    ..*old(self)
                }),
                _ => r matches Ok(None) && *final(self) == *old(self),
            },
    {
        match event {
            NetworkEvent::PeerConnected { peer_id, .. } => {
                match self.on_peer_connected(peer_id.as_str(), now) {
                    Ok(()) => Ok(None),
                    Err(e) => Err(e),
                }
            },
            NetworkEvent::PeerDisconnected { peer_id, .. } => {
                self.bus.send(DashboardEvent::PeerLeft { peer_id: peer_id.clone() });
                Ok(None)
            },
            NetworkEvent::MessageReceived { message_id, topic, source, data, timestamp_ms } => {
                if self.message_count < u64::MAX {
                    self.message_count = self.message_count + 1;
                }
                match econ_family(topic.as_str()) {
                    Some(family) => {
                        Ok(
                            Some(
                                EconPayload {
                                    family,
                                    message_id: *message_id,
                                    source: match source {
                                        Some(s) => Some(s.clone()),
                                        None => None,
                                    },
                                    data: data.clone(),
                                    timestamp_ms: *timestamp_ms,
                                },
                            ),
                        )
                    },
                    None => {
                        if is_chat_like(topic.as_str()) {
                            match bytes_to_string(data.clone()) {
                                Some(content) => {
                                    let from_id = match source {
                                        Some(s) => s.clone(),
                                        None => "unknown".to_owned(),
                                    };
                                    let from_name = Self::display_name_for(from_id.as_str());
                                    let chat = DashboardEvent::ChatMessage {
                                        id: uuid_to_string(*message_id),
                                        from: from_id,
                                        from_name,
                                        to: None,
                                        content,
                                        timestamp: *timestamp_ms,
                                    };
                                    self.bus.send(chat);
                                },
                                None => {},
                            }
                        }
                        Ok(None)
                    },
                }
            },
            NetworkEvent::Subscribed { topic } => {
                self.subscribed_topics.push(topic.clone());
                proof {
                    assert(self.subscribed_topics.deep_view() =~= old(self).subscribed_topics.deep_view().push(topic@));
                }
                Ok(None)
            },
            NetworkEvent::Unsubscribed { topic } => {
                let ghost pred = keep_topic(topic@);
                let ghost orig = self.subscribed_topics.deep_view();
                let n = self.subscribed_topics.len();
                let mut kept: Vec<String> = Vec::new();
                let mut i: usize = 0;
                while i < n
                    invariant
                        n == self.subscribed_topics@.len(),
                        orig == self.subscribed_topics.deep_view(),
                        pred == keep_topic(topic@),
                        i <= n,
                        kept.deep_view() == orig.take(i as int).filter(pred),
                    decreases n - i,
                {
                    let ghost prevk = kept.deep_view();
                    proof {
                        reveal(Seq::filter);
                        assert(orig.take(i + 1).drop_last() =~= orig.take(i as int));
                        assert(orig.take(i + 1).last() == orig[i as int]);
                    }
                    if self.subscribed_topics[i] == *topic {
                        proof {
                            assert(orig[i as int] == topic@);
                        }
                    } else {
                        proof {
                            assert(orig[i as int] != topic@);
                        }
                        kept.push(self.subscribed_topics[i].clone());
                        proof {
                            assert(kept.deep_view() =~= prevk.push(orig[i as int]));
                        }
                    }
                    i = i + 1;
                }
                proof {
                    assert(orig.take(n as int) =~= orig);
                }
                self.subscribed_topics = kept;
                Ok(None)
            },
            NetworkEvent::ListeningOn { .. } => Ok(None),
            NetworkEvent::Started { .. } => Ok(None),
            NetworkEvent::Stopped => Ok(None),
            NetworkEvent::DialFailed { .. } => Ok(None),
            NetworkEvent::MdnsDiscovered { .. } => Ok(None),
        }
    }

    /// Perform a local action: apply the already-stamped update to the
    /// replica's own state — the same path a remote update takes, so local
    /// and remote writes share every invariant — and queue it for
    /// publication to the network.
    pub fn apply_and_queue_local(&mut self, update: StateUpdate, now: i64) -> (r: Result<
        bool,
        StateError,
    >)
        requires
            old(self).wf(),
        ensures
            final(self).wf(),
            r is Ok,
            final(self).sync.pending() == old(self).sync.pending().push(update@),
            final(self).bus == old(self).bus,
            final(self).message_count == old(self).message_count,
            match update@ {
                StateUpdateView::PeerUpdate { peer_id, info, timestamp } => r matches Ok(acc)
                    && applied_peer_update_then_queued(
                    old(self).sync,
                    final(self).sync,
                    old(self).store,
                    final(self).store,
                    old(self).cache,
                    final(self).cache,
                    peer_id,
                    info,
                    timestamp as i64,
                    now,
                    update@,
                    acc,
                ),
                StateUpdateView::ReputationUpdate {
                    peer_id,
                    successful_interactions,
                    failed_interactions,
                    ..
                } => r matches Ok(acc) && applied_reputation_update_then_queued(
                    old(self).sync,
                    final(self).sync,
                    old(self).store,
                    final(self).store,
                    old(self).cache,
                    final(self).cache,
                    peer_id,
                    successful_interactions,
                    failed_interactions,
                    update@,
                    acc,
                ),
                StateUpdateView::CreditUpdate {
                    creditor,
                    debtor,
                    credit_limit,
                    balance,
                    active,
                    timestamp,
                } => r matches Ok(acc) && applied_credit_update_then_queued(
                    old(self).sync,
                    final(self).sync,
                    old(self).store,
                    final(self).store,
                    old(self).cache,
                    final(self).cache,
                    creditor,
                    debtor,
                    credit_limit,
                    balance,
                    active,
                    timestamp as i64,
                    update@,
                    acc,
                ),
                StateUpdateView::KeyValueUpdate { key, value, version, .. } => r matches Ok(acc)
                    && applied_kv_update_then_queued(
                    old(self).sync,
                    final(self).sync,
                    old(self).store,
                    final(self).store,
                    old(self).cache,
                    final(self).cache,
                    key,
                    value,
                    version,
                    update@,
                    acc,
                ),
            },
    {
        let queued = update.clone();
        let r = self.sync.apply_update_at(&update, &mut self.store, &mut self.cache, now);
        match r {
            Ok(accepted) => {
                let ghost mid_sync = self.sync;
                self.sync.queue_update(queued);
                Ok(accepted)
            },
            Err(e) => {
                proof {
                    assert(false);
                }
                Err(e)
            },
        }
    }
}

/// Filter: every topic except the one being unsubscribed.
pub open spec fn keep_topic(t: Seq<char>) -> spec_fn(Seq<char>) -> bool {
    |x: Seq<char>| x != t
}

} // verus!
