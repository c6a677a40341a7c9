//! The durable store of the replica, modeled as single-writer in-memory
//! tables with exact contracts: peers with reputations, immutable messages,
//! credit relationships with a transaction log, and a versioned key/value
//! sync table.
//!
//! Upserts follow conflict rules: a peer keeps its display name when
//! re-announced without one, and keeps its reputation unless a new one is
//! supplied; a message insert with a known id is a no-op; a credit upsert
//! keyed by the (creditor, debtor) pair keeps the original establishment
//! time; a sync upsert bumps the version by one.
//!
//! Foreign keys: storing a message demands that its sender exists as a peer
//! row; credit rows are deliberately deferred (a relationship may be learned
//! before its endpoints) and are accepted for unknown peers.

use vstd::prelude::*;

use crate::order::{
    insert_desc, lemma_insert_desc_at, lemma_insert_desc_len, lemma_insert_desc_sorted,
    lemma_map_values_insert, sort_desc, sorted_desc_by, take_at_most,
};
use crate::types::{
    relationship_id, spec_credit_id, CreditRelationship, CreditRelationshipView, CreditTransaction,
    CreditTransactionView, Message, MessageType, MessageView, PeerInfo, PeerInfoView, Reputation,
    ReputationView, StateError, SyncValue, SyncValueView, DEFAULT_SCORE_PERMILLE,
};

verus! {

/// Remove duplicate addresses, keeping the first occurrence of each.
pub open spec fn spec_dedup(s: Seq<Seq<char>>) -> Seq<Seq<char>>
    decreases s.len(),
{
    if s.len() == 0 {
        Seq::empty()
    } else {
        let d = spec_dedup(s.drop_last());
        if s.drop_last().contains(s.last()) {
            d
        } else {
            d.push(s.last())
        }
    }
}

/// The peer record as the store keeps it: addresses deduplicated, the rest
/// as supplied.
pub open spec fn spec_stored_peer(info: PeerInfoView) -> PeerInfoView {
    PeerInfoView { addresses: spec_dedup(info.addresses), ..info }
}

/// The peer record after an upsert hits an existing row: identity and first
/// sighting are kept, the display name is only replaced when the incoming
/// record carries one, everything else is taken from the incoming record.
pub open spec fn spec_merged_peer(prev: PeerInfoView, new: PeerInfoView) -> PeerInfoView {
    PeerInfoView {
        id: prev.id,
        public_key: new.public_key,
        addresses: spec_dedup(new.addresses),
        first_seen: prev.first_seen,
        last_seen: new.last_seen,
        name: if new.name is Some {
            new.name
        } else {
            prev.name
        },
    }
}

/// The reputation written for a peer that was stored without one.
pub open spec fn default_reputation_view() -> ReputationView {
    ReputationView {
        score_permille: DEFAULT_SCORE_PERMILLE,
        successful_interactions: 0,
        failed_interactions: 0,
        last_updated: 0,
        history: Seq::empty(),
    }
}

/// Whether a peer row sequence holds the id `k`.
pub open spec fn has_peer(rows: Seq<(PeerInfoView, ReputationView)>, k: Seq<char>) -> bool {
    exists|i: int| 0 <= i < rows.len() && rows[i].0.id == k
}

/// The index of the peer row with id `k`.
pub open spec fn peer_index(rows: Seq<(PeerInfoView, ReputationView)>, k: Seq<char>) -> int {
    choose|i: int| 0 <= i < rows.len() && rows[i].0.id == k
}

/// Whether a message row sequence holds the id `k`.
pub open spec fn has_message(rows: Seq<MessageView>, k: u128) -> bool {
    exists|i: int| 0 <= i < rows.len() && rows[i].id == k
}

/// The index of the message row with id `k`.
pub open spec fn message_index(rows: Seq<MessageView>, k: u128) -> int {
    choose|i: int| 0 <= i < rows.len() && rows[i].id == k
}

/// Whether a credit row sequence holds the ordered pair `(c, d)`.
pub open spec fn has_credit(rows: Seq<CreditRelationshipView>, c: Seq<char>, d: Seq<char>) -> bool {
    exists|i: int| 0 <= i < rows.len() && rows[i].creditor == c && rows[i].debtor == d
}

/// The index of the credit row for the ordered pair `(c, d)`.
pub open spec fn credit_index(rows: Seq<CreditRelationshipView>, c: Seq<char>, d: Seq<char>) -> int {
    choose|i: int| 0 <= i < rows.len() && rows[i].creditor == c && rows[i].debtor == d
}

/// Whether a sync row sequence holds the key `k`.
pub open spec fn has_sync(rows: Seq<SyncValueView>, k: Seq<char>) -> bool {
    exists|i: int| 0 <= i < rows.len() && rows[i].key == k
}

/// The index of the sync row with key `k`.
pub open spec fn sync_index(rows: Seq<SyncValueView>, k: Seq<char>) -> int {
    choose|i: int| 0 <= i < rows.len() && rows[i].key == k
}

/// The ghost image of a peer table row.
pub open spec fn peer_pair_view() -> spec_fn((PeerInfo, Reputation)) -> (
    PeerInfoView,
    ReputationView,
) {
    |p: (PeerInfo, Reputation)| (p.0@, p.1@)
}

/// The ghost image of a peer table, row by row.
pub open spec fn peer_rows_view(v: Seq<(PeerInfo, Reputation)>) -> Seq<
    (PeerInfoView, ReputationView),
> {
    v.map_values(peer_pair_view())
}

/// Sort key: when the peer was last seen.
pub open spec fn key_peer_last_seen() -> spec_fn((PeerInfoView, ReputationView)) -> int {
    |row: (PeerInfoView, ReputationView)| row.0.last_seen
}

/// Sort key: the peer's reputation score.
pub open spec fn key_peer_score() -> spec_fn((PeerInfoView, ReputationView)) -> int {
    |row: (PeerInfoView, ReputationView)| row.1.score_permille as int
}

/// Filter: peers whose score reaches the threshold.
pub open spec fn pred_trusted(threshold: u32) -> spec_fn((PeerInfoView, ReputationView)) -> bool {
    |row: (PeerInfoView, ReputationView)| row.1.score_permille >= threshold
}

/// What `list_peers` returns: every peer row, ordered by last seen,
/// newest first.
pub open spec fn spec_list_peers(rows: Seq<(PeerInfoView, ReputationView)>) -> Seq<
    (PeerInfoView, ReputationView),
> {
    sort_desc(rows, key_peer_last_seen())
}

/// What `list_trusted_peers` returns: the peer rows at or above the
/// threshold, ordered by score, best first.
pub open spec fn spec_trusted_peers(
    rows: Seq<(PeerInfoView, ReputationView)>,
    threshold: u32,
) -> Seq<(PeerInfoView, ReputationView)> {
    sort_desc(rows.filter(pred_trusted(threshold)), key_peer_score())
}

/// The ghost image of a message row.
pub open spec fn message_view() -> spec_fn(Message) -> MessageView {
    |m: Message| m@
}

/// The ghost image of a message table, row by row.
pub open spec fn message_rows_view(v: Seq<Message>) -> Seq<MessageView> {
    v.map_values(message_view())
}

/// Sort key: when the message was sent.
pub open spec fn key_message_ts() -> spec_fn(MessageView) -> int {
    |m: MessageView| m.timestamp
}

/// Filter: messages from one sender.
pub open spec fn pred_sender(sender: Seq<char>) -> spec_fn(MessageView) -> bool {
    |m: MessageView| m.sender == sender
}

/// Filter: messages of one family.
pub open spec fn pred_msg_type(t: MessageType) -> spec_fn(MessageView) -> bool {
    |m: MessageView| m.message_type == t
}

/// Filter: messages at or after the cutoff, which pruning keeps.
pub open spec fn pred_msg_kept(cutoff: int) -> spec_fn(MessageView) -> bool {
    |m: MessageView| m.timestamp >= cutoff
}

/// What `list_messages_from` returns: this sender's messages, newest
/// first, at most `limit` of them.
pub open spec fn spec_messages_from(rows: Seq<MessageView>, sender: Seq<char>, limit: int) -> Seq<
    MessageView,
> {
    take_at_most(sort_desc(rows.filter(pred_sender(sender)), key_message_ts()), limit)
}

/// What `list_recent_messages` returns: all messages, newest first, at
/// most `limit` of them.
pub open spec fn spec_recent_messages(rows: Seq<MessageView>, limit: int) -> Seq<MessageView> {
    take_at_most(sort_desc(rows, key_message_ts()), limit)
}

/// What `list_messages_by_type` returns: the family's messages, newest
/// first, at most `limit` of them.
pub open spec fn spec_messages_by_type(
    rows: Seq<MessageView>,
    t: MessageType,
    limit: int,
) -> Seq<MessageView> {
    take_at_most(sort_desc(rows.filter(pred_msg_type(t)), key_message_ts()), limit)
}

/// The ghost image of a credit row.
pub open spec fn credit_view() -> spec_fn(CreditRelationship) -> CreditRelationshipView {
    |c: CreditRelationship| c@
}

/// The ghost image of a credit table, row by row.
pub open spec fn credit_rows_view(v: Seq<CreditRelationship>) -> Seq<CreditRelationshipView> {
    v.map_values(credit_view())
}

/// Sort key: when the relationship last saw a transaction.
pub open spec fn key_credit_last_tx() -> spec_fn(CreditRelationshipView) -> int {
    |c: CreditRelationshipView| c.last_transaction
}

/// Filter: relationships with the peer on either end.
pub open spec fn pred_endpoint(p: Seq<char>) -> spec_fn(CreditRelationshipView) -> bool {
    |c: CreditRelationshipView| c.creditor == p || c.debtor == p
}

/// Filter: active relationships.
pub open spec fn pred_active() -> spec_fn(CreditRelationshipView) -> bool {
    |c: CreditRelationshipView| c.active
}

/// The credit row after an upsert hits the existing row for its pair: the
/// establishment time is kept, the rest is taken from the incoming row.
pub open spec fn spec_merged_credit(
    prev: CreditRelationshipView,
    new: CreditRelationshipView,
) -> CreditRelationshipView {
    CreditRelationshipView { established: prev.established, ..new }
}

/// What `list_credit_relationships_for` returns: the peer's relationships,
/// most recently transacted first.
pub open spec fn spec_credits_for(rows: Seq<CreditRelationshipView>, p: Seq<char>) -> Seq<
    CreditRelationshipView,
> {
    sort_desc(rows.filter(pred_endpoint(p)), key_credit_last_tx())
}

/// What `list_active_credit_relationships` returns: the active
/// relationships, most recently transacted first.
pub open spec fn spec_active_credits(rows: Seq<CreditRelationshipView>) -> Seq<
    CreditRelationshipView,
> {
    sort_desc(rows.filter(pred_active()), key_credit_last_tx())
}

/// Whether a credit row sequence holds a row whose derived identity is `id`.
pub open spec fn has_credit_id(rows: Seq<CreditRelationshipView>, id: Seq<char>) -> bool {
    exists|i: int| 0 <= i < rows.len() && spec_credit_id(rows[i].creditor, rows[i].debtor) == id
}

/// The single-writer store of the replica.
pub struct Store {
    peers: Vec<(PeerInfo, Reputation)>,
    messages: Vec<Message>,
    credits: Vec<CreditRelationship>,
    transactions: Vec<CreditTransaction>,
    sync_values: Vec<SyncValue>,
}

impl Store {
    /// The peer table, as ghost rows.
    pub closed spec fn peer_rows(&self) -> Seq<(PeerInfoView, ReputationView)> {
        peer_rows_view(self.peers@)
    }

    /// The message table, as ghost rows.
    pub closed spec fn message_rows(&self) -> Seq<MessageView> {
        message_rows_view(self.messages@)
    }

    /// The credit table, as ghost rows.
    pub closed spec fn credit_rows(&self) -> Seq<CreditRelationshipView> {
        credit_rows_view(self.credits@)
    }

    /// The credit transaction log, as ghost rows.
    pub closed spec fn transaction_rows(&self) -> Seq<CreditTransactionView> {
        transaction_rows_view(self.transactions@)
    }

    /// The sync table, as ghost rows.
    pub closed spec fn sync_rows(&self) -> Seq<SyncValueView> {
        self.sync_values@.map_values(|v: SyncValue| v@)
    }

    /// Each table is keyed: peer ids, message ids, (creditor, debtor)
    /// pairs, and sync keys are unique.
    pub open spec fn wf(&self) -> bool {
        &&& forall|i: int, j: int|
            0 <= i < j < self.peer_rows().len() ==> self.peer_rows()[i].0.id
                != self.peer_rows()[j].0.id
        &&& forall|i: int, j: int|
            0 <= i < j < self.message_rows().len() ==> self.message_rows()[i].id
                != self.message_rows()[j].id
        &&& forall|i: int, j: int|
            0 <= i < j < self.credit_rows().len() ==> !(self.credit_rows()[i].creditor
                == self.credit_rows()[j].creditor && self.credit_rows()[i].debtor
                == self.credit_rows()[j].debtor)
        &&& forall|i: int, j: int|
            0 <= i < j < self.sync_rows().len() ==> self.sync_rows()[i].key
                != self.sync_rows()[j].key
    }

    /// An empty store.
    pub fn new() -> (r: Self)
        ensures
            r.wf(),
            r.peer_rows() == Seq::<(PeerInfoView, ReputationView)>::empty(),
            r.message_rows() == Seq::<MessageView>::empty(),
            r.credit_rows() == Seq::<CreditRelationshipView>::empty(),
            r.transaction_rows() == Seq::<CreditTransactionView>::empty(),
            r.sync_rows() == Seq::<SyncValueView>::empty(),
    {
        let r = Store {
            peers: Vec::new(),
            messages: Vec::new(),
            credits: Vec::new(),
            transactions: Vec::new(),
            sync_values: Vec::new(),
        };
        proof {
            assert(r.peer_rows() =~= Seq::<(PeerInfoView, ReputationView)>::empty());
            assert(r.message_rows() =~= Seq::<MessageView>::empty());
            assert(r.credit_rows() =~= Seq::<CreditRelationshipView>::empty());
            assert(r.transaction_rows() =~= Seq::<CreditTransactionView>::empty());
            assert(r.sync_rows() =~= Seq::<SyncValueView>::empty());
        }
        r
    }

    // ========== Peer operations ==========

    /// Index of the row for `peer_id` in the peer table.
    fn find_peer(&self, peer_id: &str) -> (r: Option<usize>)
        ensures
            match r {
                Some(i) => i < self.peer_rows().len() && self.peer_rows()[i as int].0.id
                    == peer_id@,
                None => !has_peer(self.peer_rows(), peer_id@),
            },
    {
        let owned = peer_id.to_owned();
        let n = self.peers.len();
        let mut i: usize = 0;
        while i < n
            invariant
                n == self.peers@.len(),
                owned@ == peer_id@,
                i <= n,
                forall|j: int| 0 <= j < i ==> self.peer_rows()[j].0.id != peer_id@,
            decreases n - i,
        {
            if self.peers[i].0.id.0 == owned {
                assert(self.peer_rows()[i as int].0.id == peer_id@);
                return Some(i);
            }
            i = i + 1;
        }
        None
    }

    /// Remove duplicate addresses, keeping the first occurrence of each.
    fn dedup_addresses(v: &Vec<String>) -> (r: Vec<String>)
        ensures
            r.deep_view() == spec_dedup(v.deep_view()),
    {
        let mut out: Vec<String> = Vec::new();
        let n = v.len();
        let mut i: usize = 0;
        while i < n
            invariant
                n == v@.len(),
                i <= n,
                out.deep_view() == spec_dedup(v.deep_view().take(i as int)),
                forall|x: Seq<char>| #[trigger] out.deep_view().contains(x) == v.deep_view().take(
                    i as int,
                ).contains(x),
            decreases n - i,
        {
            let ghost dv = v.deep_view();
            let ghost pre = out.deep_view();
            let mut seen = false;
            let m = out.len();
            let mut j: usize = 0;
            while j < m
                invariant
                    m == out@.len(),
                    i < n,
                    n == v@.len(),
                    j <= m,
                    seen == exists|t: int| 0 <= t < j && out.deep_view()[t] == v.deep_view()[
                        i as int
                    ],
                decreases m - j,
            {
                if out[j] == v[i] {
                    proof {
                        assert(out.deep_view()[j as int] == v.deep_view()[i as int]);
                    }
                    seen = true;
                    proof {
                        assert(exists|t: int|
                            0 <= t < j + 1 && out.deep_view()[t] == v.deep_view()[i as int]);
                    }
                } else {
                    proof {
                        assert(out.deep_view()[j as int] != v.deep_view()[i as int]);
                    }
                }
                j = j + 1;
            }
            proof {
                assert(seen == pre.contains(dv[i as int]));
                assert(seen == dv.take(i as int).contains(dv[i as int]));
                assert(dv.take(i + 1).drop_last() =~= dv.take(i as int));
                assert(dv.take(i + 1).last() == dv[i as int]);
            }
            if !seen {
                out.push(v[i].clone());
                proof {
                    assert(out.deep_view() =~= pre.push(dv[i as int]));
                    assert(out.deep_view() == spec_dedup(dv.take(i + 1)));
                    assert forall|x: Seq<char>| #[trigger] out.deep_view().contains(x) == dv.take(
                        i + 1,
                    ).contains(x) by {
                        if out.deep_view().contains(x) {
                            let w = choose|t: int|
                                0 <= t < out.deep_view().len() && #[trigger] out.deep_view()[t]
                                    == x;
                            if w < pre.len() {
                                assert(pre.contains(x));
                                let u = choose|t: int|
                                0 <= t < dv.take(i as int).len() && #[trigger] dv.take(
                                    i as int,
                                )[t] == x;
                                assert(dv.take(i + 1)[u] == x);
                            } else {
                                assert(dv.take(i + 1)[i as int] == x);
                            }
                        }
                        if dv.take(i + 1).contains(x) {
                            let w = choose|t: int|
                                0 <= t < dv.take(i + 1).len() && #[trigger] dv.take(i + 1)[t]
                                    == x;
                            if w < i {
                                assert(dv.take(i as int)[w] == x);
                                assert(pre.contains(x));
                                let u = choose|t: int| 0 <= t < pre.len() && #[trigger] pre[t] == x;
                                assert(out.deep_view()[u] == x);
                            } else {
                                assert(out.deep_view()[pre.len() as int] == x);
                            }
                        }
                    }
                }
            } else {
                proof {
                    assert(out.deep_view() == spec_dedup(dv.take(i + 1)));
                    assert forall|x: Seq<char>| #[trigger] out.deep_view().contains(x) == dv.take(
                        i + 1,
                    ).contains(x) by {
                        if dv.take(i + 1).contains(x) {
                            let w = choose|t: int|
                                0 <= t < dv.take(i + 1).len() && #[trigger] dv.take(i + 1)[t]
                                    == x;
                            if w < i {
                                assert(dv.take(i as int)[w] == x);
                            } else {
                                assert(x == dv[i as int]);
                            }
                        }
                        if dv.take(i as int).contains(x) {
                            let w = choose|t: int|
                                0 <= t < i && #[trigger] dv.take(i as int)[t] == x;
                            assert(dv.take(i + 1)[w] == x);
                        }
                    }
                }
            }
            i = i + 1;
        }
        proof {
            assert(v.deep_view().take(n as int) =~= v.deep_view());
        }
        out
    }

    /// Store or update a peer. A fresh row gets the supplied reputation or
    /// the default one; an existing row keeps its first-seen time, keeps its
    /// display name unless a new one is supplied, and keeps its reputation
    /// unless a new one is supplied.
    pub fn upsert_peer(&mut self, info: &PeerInfo, reputation: Option<&Reputation>) -> (r: Result<
        (),
        StateError,
    >)
        requires
            old(self).wf(),
        ensures
            r is Ok,
            final(self).wf(),
            ({
                let rows = old(self).peer_rows();
                let k = info@.id;
                let rep = match reputation {
                    Some(q) => q@,
                    None => default_reputation_view(),
                };
                if !has_peer(rows, k) {
                    final(self).peer_rows() == rows.push((spec_stored_peer(info@), rep))
                } else {
                    let i = peer_index(rows, k);
                    let kept = match reputation {
                        Some(q) => q@,
                        None => rows[i].1,
                    };
                    final(self).peer_rows() == rows.update(
                        i,
                        (spec_merged_peer(rows[i].0, info@), kept),
                    )
                }
            }),
            final(self).message_rows() == old(self).message_rows(),
            final(self).credit_rows() == old(self).credit_rows(),
            final(self).transaction_rows() == old(self).transaction_rows(),
            final(self).sync_rows() == old(self).sync_rows(),
    {
        let deduped = Self::dedup_addresses(&info.addresses);
        match self.find_peer(info.id.as_str()) {
            Some(i) => {
                proof {
                    lemma_peer_found(self.peer_rows(), info@.id, i as int);
                }
                let prev_name = match &self.peers[i].0.name {
                    Some(s) => Some(s.clone()),
                    None => None,
                };
                let prev_first_seen = self.peers[i].0.first_seen;
                let merged = PeerInfo {
                    id: info.id.clone(),
                    public_key: info.public_key.clone(),
                    addresses: deduped,
                    first_seen: prev_first_seen,
                    last_seen: info.last_seen,
                    name: match &info.name {
                        Some(s) => Some(s.clone()),
                        None => prev_name,
                    },
                };
                let rep = match reputation {
                    Some(q) => q.clone(),
                    None => self.peers[i].1.clone(),
                };
                proof {
                    assert(merged@ =~= spec_merged_peer(self.peer_rows()[i as int].0, info@));
                }
                self.peers.set(i, (merged, rep));
                proof {
                    assert(self.peer_rows() =~= old(self).peer_rows().update(
                        peer_index(old(self).peer_rows(), info@.id),
                        (
                            spec_merged_peer(
                                old(self).peer_rows()[peer_index(
                                    old(self).peer_rows(),
                                    info@.id,
                                )].0,
                                info@,
                            ),
                            match reputation {
                                Some(q) => q@,
                                None => old(self).peer_rows()[peer_index(
                                    old(self).peer_rows(),
                                    info@.id,
                                )].1,
                            },
                        ),
                    ));
                    lemma_unchanged_other_tables(old(self), self);
                }
            },
            None => {
                let stored = PeerInfo {
                    id: info.id.clone(),
                    public_key: info.public_key.clone(),
                    addresses: deduped,
                    first_seen: info.first_seen,
                    last_seen: info.last_seen,
                    name: match &info.name {
                        Some(s) => Some(s.clone()),
                        None => None,
                    },
                };
                let rep = match reputation {
                    Some(q) => q.clone(),
                    None => Reputation::default(),
                };
                proof {
                    assert(stored@ =~= spec_stored_peer(info@));
                    assert(match reputation {
                        Some(q) => rep@ == q@,
                        None => rep@ =~= default_reputation_view(),
                    });
                }
                self.peers.push((stored, rep));
                proof {
                    assert(self.peer_rows() =~= old(self).peer_rows().push(
                        (
                            spec_stored_peer(info@),
                            match reputation {
                                Some(q) => q@,
                                None => default_reputation_view(),
                            },
                        ),
                    ));
                    lemma_unchanged_other_tables(old(self), self);
                }
            },
        }
        Ok(())
    }

    /// Get a peer row by id, as copies of the stored record.
    pub fn get_peer(&self, peer_id: &str) -> (r: Result<Option<(PeerInfo, Reputation)>, StateError>)
        requires
            self.wf(),
        ensures
            match r {
                Ok(Some((info, rep))) => has_peer(self.peer_rows(), peer_id@) && (info@, rep@)
                    == self.peer_rows()[peer_index(self.peer_rows(), peer_id@)],
                Ok(None) => !has_peer(self.peer_rows(), peer_id@),
                Err(_) => false,
            },
    {
        match self.find_peer(peer_id) {
            Some(i) => {
                proof {
                    lemma_peer_found(self.peer_rows(), peer_id@, i as int);
                }
                Ok(Some((self.peers[i].0.clone(), self.peers[i].1.clone())))
            },
            None => Ok(None),
        }
    }

    /// Overwrite the reputation of an existing peer; a missing peer is a
    /// `NotFound` error.
    pub fn update_peer_reputation(&mut self, peer_id: &str, reputation: &Reputation) -> (r: Result<
        (),
        StateError,
    >)
        requires
            old(self).wf(),
        ensures
            final(self).wf(),
            ({
                let rows = old(self).peer_rows();
                if has_peer(rows, peer_id@) {
                    let i = peer_index(rows, peer_id@);
                    r is Ok && final(self).peer_rows() == rows.update(
                        i,
                        (rows[i].0, reputation@),
                    )
                } else {
                    final(self).peer_rows() == rows && (match r {
                        Err(StateError::NotFound { entity, id }) => entity@ == "peer"@ && id@
                            == peer_id@,
                        _ => false,
                    })
                }
            }),
            final(self).message_rows() == old(self).message_rows(),
            final(self).credit_rows() == old(self).credit_rows(),
            final(self).transaction_rows() == old(self).transaction_rows(),
            final(self).sync_rows() == old(self).sync_rows(),
    {
        match self.find_peer(peer_id) {
            Some(i) => {
                proof {
                    lemma_peer_found(self.peer_rows(), peer_id@, i as int);
                }
                let kept = self.peers[i].0.clone();
                self.peers.set(i, (kept, reputation.clone()));
                proof {
                    assert(self.peer_rows() =~= old(self).peer_rows().update(
                        peer_index(old(self).peer_rows(), peer_id@),
                        (
                            old(self).peer_rows()[peer_index(old(self).peer_rows(), peer_id@)].0,
                            reputation@,
                        ),
                    ));
                    lemma_unchanged_other_tables(old(self), self);
                }
                Ok(())
            },
            None => {
                Err(
                    StateError::NotFound {
                        entity: "peer".to_owned(),
                        id: peer_id.to_owned(),
                    },
                )
            },
        }
    }

    /// Advance the last-seen time of a peer to `now`; last-seen never moves
    /// backwards, and touching an unknown peer changes nothing.
    pub fn touch_peer(&mut self, peer_id: &str, now: i64) -> (r: Result<(), StateError>)
        requires
            old(self).wf(),
        ensures
            r is Ok,
            final(self).wf(),
            ({
                let rows = old(self).peer_rows();
                if has_peer(rows, peer_id@) {
                    let i = peer_index(rows, peer_id@);
                    let bumped = if now as int > rows[i].0.last_seen {
                        now as int
                    } else {
                        rows[i].0.last_seen
                    };
                    final(self).peer_rows() == rows.update(
                        i,
                        (PeerInfoView { last_seen: bumped, ..rows[i].0 }, rows[i].1),
                    )
                } else {
                    final(self).peer_rows() == rows
                }
            }),
            final(self).message_rows() == old(self).message_rows(),
            final(self).credit_rows() == old(self).credit_rows(),
            final(self).transaction_rows() == old(self).transaction_rows(),
            final(self).sync_rows() == old(self).sync_rows(),
    {
        match self.find_peer(peer_id) {
            Some(i) => {
                proof {
                    lemma_peer_found(self.peer_rows(), peer_id@, i as int);
                }
                let mut info = self.peers[i].0.clone();
                let rep = self.peers[i].1.clone();
                if now > info.last_seen {
                    info.last_seen = now;
                }
                proof {
                    let rows = old(self).peer_rows();
                    let idx = peer_index(rows, peer_id@);
                    let bumped = if now as int > rows[idx].0.last_seen {
                        now as int
                    } else {
                        rows[idx].0.last_seen
                    };
                    assert(info@ =~= (PeerInfoView { last_seen: bumped, ..rows[idx].0 }));
                }
                self.peers.set(i, (info, rep));
                proof {
                    let rows = old(self).peer_rows();
                    let idx = peer_index(rows, peer_id@);
                    let bumped = if now as int > rows[idx].0.last_seen {
                        now as int
                    } else {
                        rows[idx].0.last_seen
                    };
                    assert(self.peer_rows() =~= rows.update(
                        idx,
                        (PeerInfoView { last_seen: bumped, ..rows[idx].0 }, rows[idx].1),
                    ));
                    lemma_unchanged_other_tables(old(self), self);
                }
                Ok(())
            },
            None => Ok(()),
        }
    }

    /// Delete a peer row; deleting an unknown peer changes nothing.
    pub fn delete_peer(&mut self, peer_id: &str) -> (r: Result<(), StateError>)
        requires
            old(self).wf(),
        ensures
            r is Ok,
            final(self).wf(),
            ({
                let rows = old(self).peer_rows();
                if has_peer(rows, peer_id@) {
                    final(self).peer_rows() == rows.remove(peer_index(rows, peer_id@))
                } else {
                    final(self).peer_rows() == rows
                }
            }),
            !has_peer(final(self).peer_rows(), peer_id@),
            final(self).message_rows() == old(self).message_rows(),
            final(self).credit_rows() == old(self).credit_rows(),
            final(self).transaction_rows() == old(self).transaction_rows(),
            final(self).sync_rows() == old(self).sync_rows(),
    {
        match self.find_peer(peer_id) {
            Some(i) => {
                proof {
                    lemma_peer_found(self.peer_rows(), peer_id@, i as int);
                }
                self.peers.remove(i);
                proof {
                    let rows = old(self).peer_rows();
                    let idx = peer_index(rows, peer_id@);
                    assert(self.peer_rows() =~= rows.remove(idx));
                    assert forall|a: int, b: int|
                        0 <= a < b < self.peer_rows().len() implies self.peer_rows()[a].0.id
                        != self.peer_rows()[b].0.id by {
                        rows.remove_ensures(idx);
                    }
                    assert(!has_peer(self.peer_rows(), peer_id@)) by {
                        if has_peer(self.peer_rows(), peer_id@) {
                            let w = choose|t: int|
                                0 <= t < self.peer_rows().len() && self.peer_rows()[t].0.id
                                    == peer_id@;
                            rows.remove_ensures(idx);
                            if w < idx {
                                assert(rows[w].0.id == peer_id@);
                            } else {
                                assert(rows[w + 1].0.id == peer_id@);
                            }
                        }
                    }
                    lemma_unchanged_other_tables(old(self), self);
                }
                Ok(())
            },
            None => Ok(()),
        }
    }

    /// The number of peer rows.
    pub fn count_peers(&self) -> (r: Result<usize, StateError>)
        ensures
            r matches Ok(n) && n == self.peer_rows().len(),
    {
        Ok(self.peers.len())
    }

    /// Copies of all peer rows, in table order.
    fn clone_peer_rows(&self) -> (r: Vec<(PeerInfo, Reputation)>)
        ensures
            peer_rows_view(r@) == self.peer_rows(),
    {
        let n = self.peers.len();
        let mut all: Vec<(PeerInfo, Reputation)> = Vec::new();
        let mut i: usize = 0;
        while i < n
            invariant
                n == self.peers@.len(),
                i <= n,
                all@.len() == i,
                peer_rows_view(all@) == self.peer_rows().take(i as int),
            decreases n - i,
        {
            let ghost prev = all@;
            let pair = (self.peers[i].0.clone(), self.peers[i].1.clone());
            let ghost pv = (pair.0@, pair.1@);
            all.push(pair);
            proof {
                assert(pv == self.peer_rows()[i as int]);
                assert forall|t: int| 0 <= t < i + 1 implies #[trigger] peer_rows_view(all@)[t]
                    == self.peer_rows().take(i + 1)[t] by {
                    if t < i {
                        assert(peer_rows_view(all@)[t] == peer_rows_view(prev)[t]);
                        assert(peer_rows_view(prev)[t] == self.peer_rows().take(i as int)[t]);
                    } else {
                        assert(all@[t] == pair);
                    }
                }
                assert(peer_rows_view(all@) =~= self.peer_rows().take(i + 1));
            }
            i = i + 1;
        }
        proof {
            assert(self.peer_rows().take(n as int) =~= self.peer_rows());
        }
        all
    }

    /// Every peer row, ordered by last seen, newest first.
    pub fn list_peers(&self) -> (r: Result<Vec<(PeerInfo, Reputation)>, StateError>)
        ensures
            match r {
                Ok(v) => peer_rows_view(v@) == spec_list_peers(self.peer_rows()),
                Err(_) => false,
            },
    {
        let all = self.clone_peer_rows();
        Ok(sort_peers_by_last_seen(all))
    }

    /// The peer rows whose score reaches the threshold (in thousandths),
    /// ordered by score, best first.
    pub fn list_trusted_peers(&self, threshold_permille: u32) -> (r: Result<
        Vec<(PeerInfo, Reputation)>,
        StateError,
    >)
        ensures
            match r {
                Ok(v) => peer_rows_view(v@) == spec_trusted_peers(
                    self.peer_rows(),
                    threshold_permille,
                ),
                Err(_) => false,
            },
    {
        let n = self.peers.len();
        let mut matching: Vec<(PeerInfo, Reputation)> = Vec::new();
        let mut i: usize = 0;
        while i < n
            invariant
                n == self.peers@.len(),
                i <= n,
                peer_rows_view(matching@) == self.peer_rows().take(i as int).filter(
                    pred_trusted(threshold_permille),
                ),
            decreases n - i,
        {
            let ghost rows = self.peer_rows();
            let ghost prevm = matching@;
            proof {
                reveal(Seq::filter);
                assert(rows.take(i + 1).drop_last() =~= rows.take(i as int));
                assert(rows.take(i + 1).last() == rows[i as int]);
            }
            if self.peers[i].1.score_permille >= threshold_permille {
                matching.push((self.peers[i].0.clone(), self.peers[i].1.clone()));
                proof {
                    assert(peer_rows_view(matching@) =~= peer_rows_view(prevm).push(
                        rows[i as int],
                    ));
                }
            }
            i = i + 1;
        }
        proof {
            assert(self.peer_rows().take(n as int) =~= self.peer_rows());
        }
        Ok(sort_peers_by_score(matching))
    }

    // ========== Message operations ==========

    /// Index of the row for message `id`.
    fn find_message(&self, id: u128) -> (r: Option<usize>)
        ensures
            match r {
                Some(i) => i < self.message_rows().len() && self.message_rows()[i as int].id == id,
                None => !has_message(self.message_rows(), id),
            },
    {
        let n = self.messages.len();
        let mut i: usize = 0;
        while i < n
            invariant
                n == self.messages@.len(),
                i <= n,
                forall|j: int| 0 <= j < i ==> self.message_rows()[j].id != id,
            decreases n - i,
        {
            if self.messages[i].id == id {
                assert(self.message_rows()[i as int].id == id);
                return Some(i);
            }
            i = i + 1;
        }
        None
    }

    /// Store a message. Messages are immutable: inserting a known id is a
    /// no-op. The sender must already exist as a peer row; otherwise the
    /// write is rejected as an `Integrity` error carrying the sender id.
    pub fn store_message(&mut self, message: &Message) -> (r: Result<(), StateError>)
        requires
            old(self).wf(),
        ensures
            final(self).wf(),
            ({
                let rows = old(self).message_rows();
                if has_message(rows, message@.id) {
                    r is Ok && final(self).message_rows() == rows
                } else if !has_peer(old(self).peer_rows(), message@.sender) {
                    final(self).message_rows() == rows && (match r {
                        Err(StateError::Integrity(sender)) => sender@ == message@.sender,
                        _ => false,
                    })
                } else {
                    r is Ok && final(self).message_rows() == rows.push(message@)
                }
            }),
            final(self).peer_rows() == old(self).peer_rows(),
            final(self).credit_rows() == old(self).credit_rows(),
            final(self).transaction_rows() == old(self).transaction_rows(),
            final(self).sync_rows() == old(self).sync_rows(),
    {
        match self.find_message(message.id) {
            Some(_) => Ok(()),
            None => {
                match self.find_peer(message.sender.as_str()) {
                    Some(_) => {
                        self.messages.push(message.clone());
                        proof {
                            assert(self.message_rows() =~= old(self).message_rows().push(
                                message@,
                            ));
                            assert forall|a: int, b: int|
                                0 <= a < b < self.message_rows().len() implies self.message_rows()[
                                a
                            ].id != self.message_rows()[b].id by {
                                if b < old(self).message_rows().len() {
                                    assert(old(self).message_rows()[a].id != old(
                                        self,
                                    ).message_rows()[b].id);
                                } else {
                                    assert(self.message_rows()[b] == message@);
                                    if old(self).message_rows()[a].id == message@.id {
                                        assert(has_message(old(self).message_rows(), message@.id));
                                    }
                                }
                            }
                            assert(self.peer_rows() == old(self).peer_rows());
                            assert(self.credit_rows() == old(self).credit_rows());
                            assert(self.sync_rows() == old(self).sync_rows());
                            assert(self.transaction_rows() == old(self).transaction_rows());
                        }
                        Ok(())
                    },
                    None => Err(StateError::Integrity(message.sender.0.clone())),
                }
            },
        }
    }

    /// Get a message by id, as a copy of the stored row.
    pub fn get_message(&self, id: u128) -> (r: Result<Option<Message>, StateError>)
        requires
            self.wf(),
        ensures
            match r {
                Ok(Some(m)) => has_message(self.message_rows(), id) && m@ == self.message_rows()[
                    message_index(self.message_rows(), id)
                ],
                Ok(None) => !has_message(self.message_rows(), id),
                Err(_) => false,
            },
    {
        match self.find_message(id) {
            Some(i) => {
                proof {
                    lemma_message_found(self.message_rows(), id, i as int);
                }
                Ok(Some(self.messages[i].clone()))
            },
            None => Ok(None),
        }
    }

    /// Copies of the messages that satisfy `pred`, in table order; the
    /// three list operations share this filter.
    #[verifier::spinoff_prover]
    fn filter_messages(&self, which: MessageFilter) -> (r: Vec<Message>)
        ensures
            message_rows_view(r@) == self.message_rows().filter(spec_message_filter(which@)),
    {
        let ghost pred = spec_message_filter(which@);
        let n = self.messages.len();
        let mut out: Vec<Message> = Vec::new();
        let mut i: usize = 0;
        while i < n
            invariant
                n == self.messages@.len(),
                i <= n,
                pred == spec_message_filter(which@),
                message_rows_view(out@) == self.message_rows().take(i as int).filter(pred),
            decreases n - i,
        {
            let ghost rows = self.message_rows();
            let ghost prevm = out@;
            proof {
                reveal(Seq::filter);
                assert(rows.take(i + 1).drop_last() =~= rows.take(i as int));
                assert(rows.take(i + 1).last() == rows[i as int]);
            }
            let keep = match &which {
                MessageFilter::All => true,
                MessageFilter::FromSender(sender) => self.messages[i].sender.0 == *sender,
                MessageFilter::OfType(t) => self.messages[i].message_type == *t,
            };
            proof {
                assert(keep == pred(rows[i as int]));
            }
            if keep {
                out.push(self.messages[i].clone());
                proof {
                    assert(message_rows_view(out@) =~= message_rows_view(prevm).push(
                        rows[i as int],
                    ));
                }
            }
            i = i + 1;
        }
        proof {
            assert(self.message_rows().take(n as int) =~= self.message_rows());
        }
        out
    }

    /// A sender's messages, newest first, at most `limit` of them.
    pub fn list_messages_from(&self, peer_id: &str, limit: usize) -> (r: Result<
        Vec<Message>,
        StateError,
    >)
        ensures
            match r {
                Ok(v) => message_rows_view(v@) == spec_messages_from(
                    self.message_rows(),
                    peer_id@,
                    limit as int,
                ),
                Err(_) => false,
            },
    {
        let matching = self.filter_messages(MessageFilter::FromSender(peer_id.to_owned()));
        let mut sorted = sort_messages_by_ts(matching);
        let ghost full = sorted@;
        if limit < sorted.len() {
            sorted.truncate(limit);
        }
        proof {
            lemma_take_message_rows(full, sorted@, limit as int);
        }
        Ok(sorted)
    }

    /// The most recent messages, newest first, at most `limit` of them.
    pub fn list_recent_messages(&self, limit: usize) -> (r: Result<Vec<Message>, StateError>)
        ensures
            match r {
                Ok(v) => message_rows_view(v@) == spec_recent_messages(
                    self.message_rows(),
                    limit as int,
                ),
                Err(_) => false,
            },
    {
        let all = self.filter_messages(MessageFilter::All);
        proof {
            lemma_filter_all(self.message_rows());
        }
        let mut sorted = sort_messages_by_ts(all);
        let ghost full = sorted@;
        if limit < sorted.len() {
            sorted.truncate(limit);
        }
        proof {
            lemma_take_message_rows(full, sorted@, limit as int);
        }
        Ok(sorted)
    }

    /// One family's messages, newest first, at most `limit` of them.
    pub fn list_messages_by_type(&self, message_type: &MessageType, limit: usize) -> (r: Result<
        Vec<Message>,
        StateError,
    >)
        ensures
            match r {
                Ok(v) => message_rows_view(v@) == spec_messages_by_type(
                    self.message_rows(),
                    *message_type,
                    limit as int,
                ),
                Err(_) => false,
            },
    {
        let matching = self.filter_messages(MessageFilter::OfType(*message_type));
        let mut sorted = sort_messages_by_ts(matching);
        let ghost full = sorted@;
        if limit < sorted.len() {
            sorted.truncate(limit);
        }
        proof {
            lemma_take_message_rows(full, sorted@, limit as int);
        }
        Ok(sorted)
    }

    /// Delete the messages sent strictly before `now - older_than_secs`;
    /// the result is how many rows were removed.
    pub fn prune_messages(&mut self, older_than_secs: i64, now: i64) -> (r: Result<
        u64,
        StateError,
    >)
        requires
            old(self).wf(),
        ensures
            final(self).wf(),
            final(self).message_rows() == old(self).message_rows().filter(
                pred_msg_kept(now - older_than_secs),
            ),
            r matches Ok(n) && n == old(self).message_rows().len()
                - final(self).message_rows().len(),
            final(self).peer_rows() == old(self).peer_rows(),
            final(self).credit_rows() == old(self).credit_rows(),
            final(self).transaction_rows() == old(self).transaction_rows(),
            final(self).sync_rows() == old(self).sync_rows(),
    {
        let ghost cutoff = now - older_than_secs;
        let ghost pred = pred_msg_kept(cutoff);
        let ghost rows = self.message_rows();
        let n = self.messages.len();
        let mut kept: Vec<Message> = Vec::new();
        let mut i: usize = 0;
        while i < n
            invariant
                *self == *old(self),
                n == self.messages@.len(),
                rows == self.message_rows(),
                pred == pred_msg_kept(cutoff),
                cutoff == now - older_than_secs,
                forall|a: int, b: int| 0 <= a < b < rows.len() ==> rows[a].id != rows[b].id,
                i <= n,
                message_rows_view(kept@) == rows.take(i as int).filter(pred),
                kept@.len() <= i,
                forall|t: int|
                    0 <= t < kept@.len() ==> exists|j: int|
                        0 <= j < i && #[trigger] message_rows_view(kept@)[t] == rows[j],
                forall|a: int, b: int|
                    0 <= a < b < kept@.len() ==> message_rows_view(kept@)[a].id
                        != message_rows_view(kept@)[b].id,
            decreases n - i,
        {
            let ghost prevk = kept@;
            proof {
                reveal(Seq::filter);
                assert(rows.take(i + 1).drop_last() =~= rows.take(i as int));
                assert(rows.take(i + 1).last() == rows[i as int]);
            }
            let ts128: i128 = self.messages[i].timestamp as i128;
            let cut128: i128 = (now as i128) - (older_than_secs as i128);
            let keep = ts128 >= cut128;
            proof {
                assert(cut128 == cutoff);
                assert(rows[i as int].timestamp == self.messages@[i as int].timestamp as int);
                assert(keep == (rows[i as int].timestamp >= cutoff));
                assert(pred(rows[i as int]) == (rows[i as int].timestamp >= cutoff));
            }
            if keep {
                kept.push(self.messages[i].clone());
                proof {
                    assert(message_rows_view(kept@) =~= message_rows_view(prevk).push(
                        rows[i as int],
                    ));
                    assert forall|t: int| 0 <= t < kept@.len() implies exists|j: int|
                        0 <= j < i + 1 && #[trigger] message_rows_view(kept@)[t] == rows[j] by {
                        if t < prevk.len() {
                            assert(message_rows_view(kept@)[t] == message_rows_view(prevk)[t]);
                            let w = choose|j: int|
                                0 <= j < i && message_rows_view(prevk)[t] == rows[j];
                            assert(message_rows_view(kept@)[t] == rows[w]);
                        } else {
                            assert(message_rows_view(kept@)[t] == rows[i as int]);
                        }
                    }
                    assert forall|a: int, b: int|
                        0 <= a < b < kept@.len() implies message_rows_view(kept@)[a].id
                        != message_rows_view(kept@)[b].id by {
                        if b == kept@.len() - 1 {
                            assert(message_rows_view(kept@)[a] == message_rows_view(prevk)[a]);
                            assert(exists|j: int|
                                0 <= j < i && #[trigger] message_rows_view(prevk)[a] == rows[j]);
                            let w = choose|j: int|
                                0 <= j < i && #[trigger] message_rows_view(prevk)[a] == rows[j];
                            assert(0 <= w < i);
                            assert(i < n);
                            assert(rows[w].id != rows[i as int].id);
                            assert(message_rows_view(kept@)[b] == rows[i as int]);
                        } else {
                            assert(message_rows_view(kept@)[a] == message_rows_view(prevk)[a]);
                            assert(message_rows_view(kept@)[b] == message_rows_view(prevk)[b]);
                            assert(message_rows_view(prevk)[a].id != message_rows_view(
                                prevk,
                            )[b].id);
                        }
                    }
                }
            }
            i = i + 1;
        }
        proof {
            assert(rows.take(n as int) =~= rows);
        }
        let removed = (n - kept.len()) as u64;
        self.messages = kept;
        proof {
            assert(self.message_rows() == rows.filter(pred));
            rows.lemma_filter_len(pred);
            assert(self.peer_rows() == old(self).peer_rows());
            assert(self.credit_rows() == old(self).credit_rows());
            assert(self.sync_rows() == old(self).sync_rows());
            assert(self.transaction_rows() == old(self).transaction_rows());
        }
        Ok(removed)
    }

    // ========== Credit operations ==========

    /// Index of the row for the ordered pair `(creditor, debtor)`.
    fn find_credit(&self, creditor: &str, debtor: &str) -> (r: Option<usize>)
        ensures
            match r {
                Some(i) => i < self.credit_rows().len() && self.credit_rows()[i as int].creditor
                    == creditor@ && self.credit_rows()[i as int].debtor == debtor@,
                None => !has_credit(self.credit_rows(), creditor@, debtor@),
            },
    {
        let c_owned = creditor.to_owned();
        let d_owned = debtor.to_owned();
        let n = self.credits.len();
        let mut i: usize = 0;
        while i < n
            invariant
                n == self.credits@.len(),
                c_owned@ == creditor@,
                d_owned@ == debtor@,
                i <= n,
                forall|j: int|
                    0 <= j < i ==> !(self.credit_rows()[j].creditor == creditor@
                        && self.credit_rows()[j].debtor == debtor@),
            decreases n - i,
        {
            if self.credits[i].creditor.0 == c_owned && self.credits[i].debtor.0 == d_owned {
                assert(self.credit_rows()[i as int].creditor == creditor@);
                return Some(i);
            }
            i = i + 1;
        }
        None
    }

    /// Store or update a credit relationship, keyed by its ordered
    /// (creditor, debtor) pair; an existing row keeps its establishment
    /// time. The result is the derived identity of the row. Endpoints need
    /// not exist as peers: the relationship may be learned first.
    pub fn upsert_credit_relationship(&mut self, rel: &CreditRelationship) -> (r: Result<
        String,
        StateError,
    >)
        requires
            old(self).wf(),
        ensures
            final(self).wf(),
            r matches Ok(id) && id@ == spec_credit_id(rel@.creditor, rel@.debtor),
            ({
                let rows = old(self).credit_rows();
                if !has_credit(rows, rel@.creditor, rel@.debtor) {
                    final(self).credit_rows() == rows.push(rel@)
                } else {
                    let i = credit_index(rows, rel@.creditor, rel@.debtor);
                    final(self).credit_rows() == rows.update(i, spec_merged_credit(rows[i], rel@))
                }
            }),
            final(self).peer_rows() == old(self).peer_rows(),
            final(self).message_rows() == old(self).message_rows(),
            final(self).transaction_rows() == old(self).transaction_rows(),
            final(self).sync_rows() == old(self).sync_rows(),
    {
        let id = relationship_id(rel.creditor.as_str(), rel.debtor.as_str());
        match self.find_credit(rel.creditor.as_str(), rel.debtor.as_str()) {
            Some(i) => {
                proof {
                    lemma_credit_found(self.credit_rows(), rel@.creditor, rel@.debtor, i as int);
                }
                let merged = CreditRelationship {
                    creditor: rel.creditor.clone(),
                    debtor: rel.debtor.clone(),
                    credit_limit: rel.credit_limit,
                    balance: rel.balance,
                    active: rel.active,
                    established: self.credits[i].established,
                    last_transaction: rel.last_transaction,
                };
                proof {
                    assert(merged@ =~= spec_merged_credit(self.credit_rows()[i as int], rel@));
                }
                self.credits.set(i, merged);
                proof {
                    let rows = old(self).credit_rows();
                    let idx = credit_index(rows, rel@.creditor, rel@.debtor);
                    assert(self.credit_rows() =~= rows.update(
                        idx,
                        spec_merged_credit(rows[idx], rel@),
                    ));
                    assert(self.peer_rows() == old(self).peer_rows());
                    assert(self.message_rows() == old(self).message_rows());
                    assert(self.transaction_rows() == old(self).transaction_rows());
                    assert(self.sync_rows() == old(self).sync_rows());
                }
                Ok(id)
            },
            None => {
                self.credits.push(rel.clone());
                proof {
                    assert(self.credit_rows() =~= old(self).credit_rows().push(rel@));
                    assert forall|a: int, b: int|
                        0 <= a < b < self.credit_rows().len() implies !(self.credit_rows()[
                        a
                    ].creditor == self.credit_rows()[b].creditor && self.credit_rows()[a].debtor
                        == self.credit_rows()[b].debtor) by {
                        if b < old(self).credit_rows().len() {
                            assert(!(old(self).credit_rows()[a].creditor == old(
                                self,
                            ).credit_rows()[b].creditor && old(self).credit_rows()[a].debtor
                                == old(self).credit_rows()[b].debtor));
                        } else {
                            assert(self.credit_rows()[b] == rel@);
                            if old(self).credit_rows()[a].creditor == rel@.creditor && old(
                                self,
                            ).credit_rows()[a].debtor == rel@.debtor {
                                assert(has_credit(
                                    old(self).credit_rows(),
                                    rel@.creditor,
                                    rel@.debtor,
                                ));
                            }
                        }
                    }
                    assert(self.peer_rows() == old(self).peer_rows());
                    assert(self.message_rows() == old(self).message_rows());
                    assert(self.transaction_rows() == old(self).transaction_rows());
                    assert(self.sync_rows() == old(self).sync_rows());
                }
                Ok(id)
            },
        }
    }

    /// Get the credit relationship between two peers, in that order.
    pub fn get_credit_relationship_between(&self, creditor: &str, debtor: &str) -> (r: Result<
        Option<CreditRelationship>,
        StateError,
    >)
        requires
            self.wf(),
        ensures
            match r {
                Ok(Some(c)) => has_credit(self.credit_rows(), creditor@, debtor@) && c@
                    == self.credit_rows()[credit_index(self.credit_rows(), creditor@, debtor@)],
                Ok(None) => !has_credit(self.credit_rows(), creditor@, debtor@),
                Err(_) => false,
            },
    {
        match self.find_credit(creditor, debtor) {
            Some(i) => {
                proof {
                    lemma_credit_found(self.credit_rows(), creditor@, debtor@, i as int);
                }
                Ok(Some(self.credits[i].clone()))
            },
            None => Ok(None),
        }
    }

    /// Get a credit relationship by its derived identity. Distinct pairs
    /// can derive the same identity, so the first matching row is returned.
    pub fn get_credit_relationship(&self, id: &str) -> (r: Result<
        Option<CreditRelationship>,
        StateError,
    >)
        ensures
            match r {
                Ok(Some(c)) => exists|i: int|
                    0 <= i < self.credit_rows().len() && c@ == self.credit_rows()[i]
                        && spec_credit_id(c@.creditor, c@.debtor) == id@,
                Ok(None) => !has_credit_id(self.credit_rows(), id@),
                Err(_) => false,
            },
    {
        let owned = id.to_owned();
        let n = self.credits.len();
        let mut i: usize = 0;
        while i < n
            invariant
                n == self.credits@.len(),
                owned@ == id@,
                i <= n,
                forall|j: int|
                    0 <= j < i ==> spec_credit_id(
                        self.credit_rows()[j].creditor,
                        self.credit_rows()[j].debtor,
                    ) != id@,
            decreases n - i,
        {
            let row_id = relationship_id(self.credits[i].creditor.as_str(), self.credits[
                i
            ].debtor.as_str());
            if row_id == owned {
                let c = self.credits[i].clone();
                proof {
                    assert(c@ == self.credit_rows()[i as int]);
                    assert(spec_credit_id(c@.creditor, c@.debtor) == id@);
                }
                return Ok(Some(c));
            }
            i = i + 1;
        }
        Ok(None)
    }

    /// Copies of the credit rows that satisfy `pred`, in table order.
    #[verifier::spinoff_prover]
    fn filter_credits(&self, which: CreditFilter) -> (r: Vec<CreditRelationship>)
        ensures
            credit_rows_view(r@) == self.credit_rows().filter(spec_credit_filter(which@)),
    {
        let ghost pred = spec_credit_filter(which@);
        let n = self.credits.len();
        let mut out: Vec<CreditRelationship> = Vec::new();
        let mut i: usize = 0;
        while i < n
            invariant
                n == self.credits@.len(),
                i <= n,
                pred == spec_credit_filter(which@),
                credit_rows_view(out@) == self.credit_rows().take(i as int).filter(pred),
            decreases n - i,
        {
            let ghost rows = self.credit_rows();
            let ghost prevm = out@;
            proof {
                reveal(Seq::filter);
                assert(rows.take(i + 1).drop_last() =~= rows.take(i as int));
                assert(rows.take(i + 1).last() == rows[i as int]);
            }
            let keep = match &which {
                CreditFilter::ForPeer(p) => self.credits[i].creditor.0 == *p || self.credits[
                    i
                ].debtor.0 == *p,
                CreditFilter::Active => self.credits[i].active,
            };
            proof {
                assert(keep == pred(rows[i as int]));
            }
            if keep {
                out.push(self.credits[i].clone());
                proof {
                    assert(credit_rows_view(out@) =~= credit_rows_view(prevm).push(
                        rows[i as int],
                    ));
                }
            }
            i = i + 1;
        }
        proof {
            assert(self.credit_rows().take(n as int) =~= self.credit_rows());
        }
        out
    }

    /// The relationships with this peer on either end, most recently
    /// transacted first.
    pub fn list_credit_relationships_for(&self, peer_id: &str) -> (r: Result<
        Vec<CreditRelationship>,
        StateError,
    >)
        ensures
            match r {
                Ok(v) => credit_rows_view(v@) == spec_credits_for(self.credit_rows(), peer_id@),
                Err(_) => false,
            },
    {
        let matching = self.filter_credits(CreditFilter::ForPeer(peer_id.to_owned()));
        Ok(sort_credits_by_last_tx(matching))
    }

    /// The active relationships, most recently transacted first.
    pub fn list_active_credit_relationships(&self) -> (r: Result<
        Vec<CreditRelationship>,
        StateError,
    >)
        ensures
            match r {
                Ok(v) => credit_rows_view(v@) == spec_active_credits(self.credit_rows()),
                Err(_) => false,
            },
    {
        let matching = self.filter_credits(CreditFilter::Active);
        Ok(sort_credits_by_last_tx(matching))
    }

    /// Append one entry to the credit transaction log. The relationship id
    /// is not checked: like credit endpoints, the log tolerates entries
    /// whose relationship is not (yet) stored.
    pub fn record_credit_transaction_at(
        &mut self,
        relationship_id: &str,
        amount: i64,
        balance_after: i64,
        description: Option<&str>,
        id: u128,
        now: i64,
    ) -> (r: Result<(), StateError>)
        requires
            old(self).wf(),
        ensures
            r is Ok,
            final(self).wf(),
            final(self).transaction_rows() == old(self).transaction_rows().push(
                CreditTransactionView {
                    id: id,
                    relationship_id: relationship_id@,
                    amount: amount,
                    balance_after: balance_after,
                    description: match description {
                        Some(d) => Some(d@),
                        None => None,
                    },
                    timestamp: now as int,
                },
            ),
            final(self).peer_rows() == old(self).peer_rows(),
            final(self).message_rows() == old(self).message_rows(),
            final(self).credit_rows() == old(self).credit_rows(),
            final(self).sync_rows() == old(self).sync_rows(),
    {
        let entry = CreditTransaction {
            id,
            relationship_id: relationship_id.to_owned(),
            amount,
            balance_after,
            description: match description {
                Some(d) => Some(d.to_owned()),
                None => None,
            },
            timestamp: now,
        };
        self.transactions.push(entry);
        proof {
            assert(self.transaction_rows() =~= old(self).transaction_rows().push(
                CreditTransactionView {
                    id: id,
                    relationship_id: relationship_id@,
                    amount: amount,
                    balance_after: balance_after,
                    description: match description {
                        Some(d) => Some(d@),
                        None => None,
                    },
                    timestamp: now as int,
                },
            ));
            assert(self.peer_rows() == old(self).peer_rows());
            assert(self.message_rows() == old(self).message_rows());
            assert(self.credit_rows() == old(self).credit_rows());
            assert(self.sync_rows() == old(self).sync_rows());
        }
        Ok(())
    }

    /// Append one entry to the credit transaction log, under a fresh random
    /// identifier and the current wall-clock time.
    pub fn record_credit_transaction(
        &mut self,
        relationship_id: &str,
        amount: i64,
        balance_after: i64,
        description: Option<&str>,
    ) -> (r: Result<(), StateError>)
        requires
            old(self).wf(),
        ensures
            r is Ok,
            final(self).wf(),
            final(self).transaction_rows().len() == old(self).transaction_rows().len() + 1,
            ({
                let entry = final(self).transaction_rows().last();
                &&& entry.relationship_id == relationship_id@
                &&& entry.amount == amount
                &&& entry.balance_after == balance_after
                &&& entry.description == (match description {
                    Some(d) => Some(d@),
                    None => None::<Seq<char>>,
                })
                &&& final(self).transaction_rows() == old(self).transaction_rows().push(entry)
            }),
            final(self).peer_rows() == old(self).peer_rows(),
            final(self).message_rows() == old(self).message_rows(),
            final(self).credit_rows() == old(self).credit_rows(),
            final(self).sync_rows() == old(self).sync_rows(),
    {
        let id = crate::outside::new_uuid();
        let now = crate::outside::now_seconds();
        self.record_credit_transaction_at(relationship_id, amount, balance_after, description, id, now)
    }

    /// The logged transactions of one relationship, in log order.
    pub fn list_credit_transactions_for(&self, relationship_id: &str) -> (r: Vec<
        CreditTransaction,
    >)
        ensures
            transaction_rows_view(r@) == self.transaction_rows().filter(
                pred_tx_rel(relationship_id@),
            ),
    {
        let ghost pred = pred_tx_rel(relationship_id@);
        let owned = relationship_id.to_owned();
        let n = self.transactions.len();
        let mut out: Vec<CreditTransaction> = Vec::new();
        let mut i: usize = 0;
        while i < n
            invariant
                n == self.transactions@.len(),
                owned@ == relationship_id@,
                i <= n,
                pred == pred_tx_rel(relationship_id@),
                transaction_rows_view(out@) == self.transaction_rows().take(i as int).filter(
                    pred,
                ),
            decreases n - i,
        {
            let ghost rows = self.transaction_rows();
            let ghost prevm = out@;
            proof {
                reveal(Seq::filter);
                assert(rows.take(i + 1).drop_last() =~= rows.take(i as int));
                assert(rows.take(i + 1).last() == rows[i as int]);
            }
            let keep = self.transactions[i].relationship_id == owned;
            proof {
                assert(keep == pred(rows[i as int]));
            }
            if keep {
                out.push(self.transactions[i].clone());
                proof {
                    assert(transaction_rows_view(out@) =~= transaction_rows_view(prevm).push(
                        rows[i as int],
                    ));
                }
            }
            i = i + 1;
        }
        proof {
            assert(self.transaction_rows().take(n as int) =~= self.transaction_rows());
        }
        out
    }

    // ========== Sync value operations ==========

    /// Index of the row for sync key `key`.
    fn find_sync(&self, key: &str) -> (r: Option<usize>)
        ensures
            match r {
                Some(i) => i < self.sync_rows().len() && self.sync_rows()[i as int].key == key@,
                None => !has_sync(self.sync_rows(), key@),
            },
    {
        let owned = key.to_owned();
        let n = self.sync_values.len();
        let mut i: usize = 0;
        while i < n
            invariant
                n == self.sync_values@.len(),
                owned@ == key@,
                i <= n,
                forall|j: int| 0 <= j < i ==> self.sync_rows()[j].key != key@,
            decreases n - i,
        {
            if self.sync_values[i].key == owned {
                assert(self.sync_rows()[i as int].key == key@);
                return Some(i);
            }
            i = i + 1;
        }
        None
    }

    /// Store a sync value: a fresh key gets version 1; an existing key gets
    /// the new value and its version moves up by one (saturating at the
    /// 64-bit limit).
    pub fn set_sync_value(&mut self, key: &str, value: &[u8]) -> (r: Result<(), StateError>)
        requires
            old(self).wf(),
        ensures
            r is Ok,
            final(self).wf(),
            ({
                let rows = old(self).sync_rows();
                if !has_sync(rows, key@) {
                    final(self).sync_rows() == rows.push(
                        SyncValueView { key: key@, value: value@, version: 1 },
                    )
                } else {
                    let i = sync_index(rows, key@);
                    let bumped = if rows[i].version < u64::MAX {
                        (rows[i].version + 1) as u64
                    } else {
                        u64::MAX
                    };
                    final(self).sync_rows() == rows.update(
                        i,
                        SyncValueView { key: key@, value: value@, version: bumped },
                    )
                }
            }),
            final(self).peer_rows() == old(self).peer_rows(),
            final(self).message_rows() == old(self).message_rows(),
            final(self).credit_rows() == old(self).credit_rows(),
            final(self).transaction_rows() == old(self).transaction_rows(),
    {
        match self.find_sync(key) {
            Some(i) => {
                proof {
                    lemma_sync_found(self.sync_rows(), key@, i as int);
                }
                let v = self.sync_values[i].version;
                let bumped = if v < u64::MAX {
                    v + 1
                } else {
                    u64::MAX
                };
                let row = SyncValue {
                    key: key.to_owned(),
                    value: vstd::slice::slice_to_vec(value),
                    version: bumped,
                };
                self.sync_values.set(i, row);
                proof {
                    let rows = old(self).sync_rows();
                    let idx = sync_index(rows, key@);
                    let b = if rows[idx].version < u64::MAX {
                        (rows[idx].version + 1) as u64
                    } else {
                        u64::MAX
                    };
                    assert(self.sync_rows() =~= rows.update(
                        idx,
                        SyncValueView { key: key@, value: value@, version: b },
                    ));
                    assert(self.peer_rows() == old(self).peer_rows());
                    assert(self.message_rows() == old(self).message_rows());
                    assert(self.credit_rows() == old(self).credit_rows());
                    assert(self.transaction_rows() == old(self).transaction_rows());
                }
                Ok(())
            },
            None => {
                let row = SyncValue {
                    key: key.to_owned(),
                    value: vstd::slice::slice_to_vec(value),
                    version: 1,
                };
                self.sync_values.push(row);
                proof {
                    assert(self.sync_rows() =~= old(self).sync_rows().push(
                        SyncValueView { key: key@, value: value@, version: 1 },
                    ));
                    lemma_sync_push_wf(old(self).sync_rows(), self.sync_rows(), key@);
                    assert(self.peer_rows() == old(self).peer_rows());
                    assert(self.message_rows() == old(self).message_rows());
                    assert(self.credit_rows() == old(self).credit_rows());
                    assert(self.transaction_rows() == old(self).transaction_rows());
                }
                Ok(())
            },
        }
    }

    /// Store a sync value at exactly the given version; used when a remote
    /// update wins and its version is adopted as-is.
    pub fn put_sync_value_at(&mut self, key: &str, value: &[u8], version: u64) -> (r: Result<
        (),
        StateError,
    >)
        requires
            old(self).wf(),
        ensures
            r is Ok,
            final(self).wf(),
            ({
                let rows = old(self).sync_rows();
                let row = SyncValueView { key: key@, value: value@, version: version };
                if !has_sync(rows, key@) {
                    final(self).sync_rows() == rows.push(row)
                } else {
                    final(self).sync_rows() == rows.update(sync_index(rows, key@), row)
                }
            }),
            final(self).peer_rows() == old(self).peer_rows(),
            final(self).message_rows() == old(self).message_rows(),
            final(self).credit_rows() == old(self).credit_rows(),
            final(self).transaction_rows() == old(self).transaction_rows(),
    {
        let row = SyncValue {
            key: key.to_owned(),
            value: vstd::slice::slice_to_vec(value),
            version,
        };
        match self.find_sync(key) {
            Some(i) => {
                proof {
                    lemma_sync_found(self.sync_rows(), key@, i as int);
                }
                self.sync_values.set(i, row);
                proof {
                    let rows = old(self).sync_rows();
                    assert(self.sync_rows() =~= rows.update(
                        sync_index(rows, key@),
                        SyncValueView { key: key@, value: value@, version: version },
                    ));
                    assert(self.peer_rows() == old(self).peer_rows());
                    assert(self.message_rows() == old(self).message_rows());
                    assert(self.credit_rows() == old(self).credit_rows());
                    assert(self.transaction_rows() == old(self).transaction_rows());
                }
                Ok(())
            },
            None => {
                self.sync_values.push(row);
                proof {
                    assert(self.sync_rows() =~= old(self).sync_rows().push(
                        SyncValueView { key: key@, value: value@, version: version },
                    ));
                    lemma_sync_push_wf(old(self).sync_rows(), self.sync_rows(), key@);
                    assert(self.peer_rows() == old(self).peer_rows());
                    assert(self.message_rows() == old(self).message_rows());
                    assert(self.credit_rows() == old(self).credit_rows());
                    assert(self.transaction_rows() == old(self).transaction_rows());
                }
                Ok(())
            },
        }
    }

    /// Get a sync value and its version, as copies of the stored row.
    pub fn get_sync_value(&self, key: &str) -> (r: Result<Option<(Vec<u8>, u64)>, StateError>)
        requires
            self.wf(),
        ensures
            match r {
                Ok(Some((v, ver))) => has_sync(self.sync_rows(), key@) && {
                    let row = self.sync_rows()[sync_index(self.sync_rows(), key@)];
                    v@ == row.value && ver == row.version
                },
                Ok(None) => !has_sync(self.sync_rows(), key@),
                Err(_) => false,
            },
    {
        match self.find_sync(key) {
            Some(i) => {
                proof {
                    lemma_sync_found(self.sync_rows(), key@, i as int);
                }
                let v = self.sync_values[i].value.clone();
                proof {
                    assert(v@ =~= self.sync_values@[i as int].value@);
                }
                Ok(Some((v, self.sync_values[i].version)))
            },
            None => Ok(None),
        }
    }

    /// Delete a sync key; deleting an unknown key changes nothing.
    pub fn delete_sync_value(&mut self, key: &str) -> (r: Result<(), StateError>)
        requires
            old(self).wf(),
        ensures
            r is Ok,
            final(self).wf(),
            ({
                let rows = old(self).sync_rows();
                if has_sync(rows, key@) {
                    final(self).sync_rows() == rows.remove(sync_index(rows, key@))
                } else {
                    final(self).sync_rows() == rows
                }
            }),
            !has_sync(final(self).sync_rows(), key@),
            final(self).peer_rows() == old(self).peer_rows(),
            final(self).message_rows() == old(self).message_rows(),
            final(self).credit_rows() == old(self).credit_rows(),
            final(self).transaction_rows() == old(self).transaction_rows(),
    {
        match self.find_sync(key) {
            Some(i) => {
                proof {
                    lemma_sync_found(self.sync_rows(), key@, i as int);
                }
                self.sync_values.remove(i);
                proof {
                    let rows = old(self).sync_rows();
                    let idx = sync_index(rows, key@);
                    assert(self.sync_rows() =~= rows.remove(idx));
                    assert forall|a: int, b: int|
                        0 <= a < b < self.sync_rows().len() implies self.sync_rows()[a].key
                        != self.sync_rows()[b].key by {
                        rows.remove_ensures(idx);
                    }
                    assert(!has_sync(self.sync_rows(), key@)) by {
                        if has_sync(self.sync_rows(), key@) {
                            let w = choose|t: int|
                                0 <= t < self.sync_rows().len() && self.sync_rows()[t].key == key@;
                            rows.remove_ensures(idx);
                            if w < idx {
                                assert(rows[w].key == key@);
                            } else {
                                assert(rows[w + 1].key == key@);
                            }
                        }
                    }
                    assert(self.peer_rows() == old(self).peer_rows());
                    assert(self.message_rows() == old(self).message_rows());
                    assert(self.credit_rows() == old(self).credit_rows());
                    assert(self.transaction_rows() == old(self).transaction_rows());
                }
                Ok(())
            },
            None => Ok(()),
        }
    }
}

/// Which credit rows a listing keeps.
enum CreditFilter {
    ForPeer(String),
    Active,
}

impl View for CreditFilter {
    type V = CreditFilterView;

    closed spec fn view(&self) -> CreditFilterView {
        match self {
            CreditFilter::ForPeer(p) => CreditFilterView::ForPeer(p@),
            CreditFilter::Active => CreditFilterView::Active,
        }
    }
}

/// Ghost image of a [`CreditFilter`].
pub enum CreditFilterView {
    ForPeer(Seq<char>),
    Active,
}

/// The predicate a credit filter stands for.
pub open spec fn spec_credit_filter(which: CreditFilterView) -> spec_fn(
    CreditRelationshipView,
) -> bool {
    match which {
        CreditFilterView::ForPeer(p) => pred_endpoint(p),
        CreditFilterView::Active => pred_active(),
    }
}

/// The ghost image of a transaction row.
pub open spec fn transaction_view() -> spec_fn(CreditTransaction) -> CreditTransactionView {
    |t: CreditTransaction| t@
}

/// The ghost image of a transaction log, row by row.
pub open spec fn transaction_rows_view(v: Seq<CreditTransaction>) -> Seq<CreditTransactionView> {
    v.map_values(transaction_view())
}

/// Filter: transactions of one relationship.
pub open spec fn pred_tx_rel(rel_id: Seq<char>) -> spec_fn(CreditTransactionView) -> bool {
    |t: CreditTransactionView| t.relationship_id == rel_id
}

/// A found index pins down `credit_index` under pair uniqueness.
pub(crate) proof fn lemma_credit_found(rows: Seq<CreditRelationshipView>, c: Seq<char>, d: Seq<char>, i: int)
    requires
        forall|a: int, b: int|
            0 <= a < b < rows.len() ==> !(rows[a].creditor == rows[b].creditor && rows[a].debtor
                == rows[b].debtor),
        0 <= i < rows.len(),
        rows[i].creditor == c,
        rows[i].debtor == d,
    ensures
        has_credit(rows, c, d),
        credit_index(rows, c, d) == i,
{
    assert(has_credit(rows, c, d));
    let w = credit_index(rows, c, d);
    assert(rows[w].creditor == c && rows[w].debtor == d);
    if w != i {
        assert(false);
    }
}

/// A found index pins down `sync_index` under key uniqueness.
pub(crate) proof fn lemma_sync_found(rows: Seq<SyncValueView>, k: Seq<char>, i: int)
    requires
        forall|a: int, b: int| 0 <= a < b < rows.len() ==> rows[a].key != rows[b].key,
        0 <= i < rows.len(),
        rows[i].key == k,
    ensures
        has_sync(rows, k),
        sync_index(rows, k) == i,
{
    assert(has_sync(rows, k));
    let w = sync_index(rows, k);
    assert(rows[w].key == k);
    if w != i {
        assert(false);
    }
}

/// Pushing a fresh key keeps sync keys unique.
proof fn lemma_sync_push_wf(prev: Seq<SyncValueView>, cur: Seq<SyncValueView>, k: Seq<char>)
    requires
        forall|a: int, b: int| 0 <= a < b < prev.len() ==> prev[a].key != prev[b].key,
        !has_sync(prev, k),
        cur.len() == prev.len() + 1,
        cur == prev.push(cur.last()),
        cur.last().key == k,
    ensures
        forall|a: int, b: int| 0 <= a < b < cur.len() ==> cur[a].key != cur[b].key,
{
    assert forall|a: int, b: int| 0 <= a < b < cur.len() implies cur[a].key != cur[b].key by {
        if b < prev.len() {
            assert(prev[a].key != prev[b].key);
        } else {
            assert(cur[a] == prev[a]);
            if prev[a].key == k {
                assert(has_sync(prev, k));
            }
        }
    }
}

/// Sort credit rows by last transaction, newest first.
fn sort_credits_by_last_tx(v: Vec<CreditRelationship>) -> (r: Vec<CreditRelationship>)
    ensures
        credit_rows_view(r@) == sort_desc(credit_rows_view(v@), key_credit_last_tx()),
{
    let ghost rows = credit_rows_view(v@);
    let n = v.len();
    let mut out: Vec<CreditRelationship> = Vec::new();
    let mut i: usize = 0;
    while i < n
        invariant
            n == v@.len(),
            rows == credit_rows_view(v@),
            i <= n,
            out@.len() == i,
            credit_rows_view(out@) == sort_desc(rows.take(i as int), key_credit_last_tx()),
            sorted_desc_by(credit_rows_view(out@), key_credit_last_tx()),
        decreases n - i,
    {
        let ghost prev = credit_rows_view(out@);
        let c = v[i].clone();
        let ghost cv = c@;
        let kc = v[i].last_transaction;
        let m = out.len();
        let mut pos: usize = 0;
        while pos < m && out[pos].last_transaction >= kc
            invariant
                m == out@.len(),
                pos <= m,
                prev == credit_rows_view(out@),
                forall|t: int| 0 <= t < pos ==> #[trigger] prev[t].last_transaction >= kc,
            decreases m - pos,
        {
            proof {
                assert(prev[pos as int].last_transaction == out@[pos as int]@.last_transaction);
            }
            pos = pos + 1;
        }
        proof {
            assert(pos < m ==> prev[pos as int].last_transaction < kc);
            assert(cv == rows[i as int]);
            lemma_insert_desc_at(prev, cv, key_credit_last_tx(), pos as int);
            lemma_insert_desc_sorted(prev, cv, key_credit_last_tx());
            lemma_insert_desc_len(prev, cv, key_credit_last_tx());
        }
        let ghost prev_vec = out@;
        out.insert(pos, c);
        proof {
            lemma_map_values_insert(prev_vec, pos as int, c, credit_view());
            assert(credit_rows_view(out@) == insert_desc(prev, cv, key_credit_last_tx()));
            assert(rows.take(i + 1).drop_last() =~= rows.take(i as int));
            assert(rows.take(i + 1).last() == rows[i as int]);
            assert(credit_rows_view(out@) == sort_desc(rows.take(i + 1), key_credit_last_tx()));
        }
        i = i + 1;
    }
    proof {
        assert(rows.take(n as int) =~= rows);
    }
    out
}

/// Which messages a listing keeps.
enum MessageFilter {
    All,
    FromSender(String),
    OfType(MessageType),
}

impl View for MessageFilter {
    type V = MessageFilterView;

    closed spec fn view(&self) -> MessageFilterView {
        match self {
            MessageFilter::All => MessageFilterView::All,
            MessageFilter::FromSender(s) => MessageFilterView::FromSender(s@),
            MessageFilter::OfType(t) => MessageFilterView::OfType(*t),
        }
    }
}

/// Ghost image of a [`MessageFilter`].
pub enum MessageFilterView {
    All,
    FromSender(Seq<char>),
    OfType(MessageType),
}

/// The predicate a message filter stands for.
pub open spec fn spec_message_filter(which: MessageFilterView) -> spec_fn(MessageView) -> bool {
    match which {
        MessageFilterView::All => |m: MessageView| true,
        MessageFilterView::FromSender(s) => pred_sender(s),
        MessageFilterView::OfType(t) => pred_msg_type(t),
    }
}

/// Filtering by the always-true predicate keeps every row.
proof fn lemma_filter_all(rows: Seq<MessageView>)
    ensures
        rows.filter(spec_message_filter(MessageFilterView::All)) == rows,
    decreases rows.len(),
{
    reveal(Seq::filter);
    if rows.len() > 0 {
        lemma_filter_all(rows.drop_last());
        assert(rows.filter(spec_message_filter(MessageFilterView::All)) =~= rows);
    } else {
        assert(rows.filter(spec_message_filter(MessageFilterView::All)) =~= rows);
    }
}

/// A found index pins down `message_index` under key uniqueness.
pub(crate) proof fn lemma_message_found(rows: Seq<MessageView>, k: u128, i: int)
    requires
        forall|a: int, b: int| 0 <= a < b < rows.len() ==> rows[a].id != rows[b].id,
        0 <= i < rows.len(),
        rows[i].id == k,
    ensures
        has_message(rows, k),
        message_index(rows, k) == i,
{
    assert(has_message(rows, k));
    let w = message_index(rows, k);
    assert(rows[w].id == k);
    if w != i {
        assert(false);
    }
}

/// Truncating a sorted message vector takes the view prefix.
proof fn lemma_take_message_rows(full: Seq<Message>, cut: Seq<Message>, limit: int)
    requires
        limit >= 0,
        limit < full.len() ==> cut == full.take(limit),
        limit >= full.len() ==> cut == full,
    ensures
        message_rows_view(cut) == take_at_most(message_rows_view(full), limit),
{
    if limit < full.len() {
        assert(message_rows_view(full.take(limit)) =~= message_rows_view(full).take(limit));
    } else if limit == full.len() {
        assert(message_rows_view(full).take(limit) =~= message_rows_view(full));
    }
}

/// Sort messages by timestamp, newest first.
fn sort_messages_by_ts(v: Vec<Message>) -> (r: Vec<Message>)
    ensures
        message_rows_view(r@) == sort_desc(message_rows_view(v@), key_message_ts()),
{
    let ghost rows = message_rows_view(v@);
    let n = v.len();
    let mut out: Vec<Message> = Vec::new();
    let mut i: usize = 0;
    while i < n
        invariant
            n == v@.len(),
            rows == message_rows_view(v@),
            i <= n,
            out@.len() == i,
            message_rows_view(out@) == sort_desc(rows.take(i as int), key_message_ts()),
            sorted_desc_by(message_rows_view(out@), key_message_ts()),
        decreases n - i,
    {
        let ghost prev = message_rows_view(out@);
        let c = v[i].clone();
        let ghost cv = c@;
        let kc = v[i].timestamp;
        let m = out.len();
        let mut pos: usize = 0;
        while pos < m && out[pos].timestamp >= kc
            invariant
                m == out@.len(),
                pos <= m,
                prev == message_rows_view(out@),
                forall|t: int| 0 <= t < pos ==> #[trigger] prev[t].timestamp >= kc,
            decreases m - pos,
        {
            proof {
                assert(prev[pos as int].timestamp == out@[pos as int]@.timestamp);
            }
            pos = pos + 1;
        }
        proof {
            assert(pos < m ==> prev[pos as int].timestamp < kc);
            assert(cv == rows[i as int]);
            lemma_insert_desc_at(prev, cv, key_message_ts(), pos as int);
            lemma_insert_desc_sorted(prev, cv, key_message_ts());
            lemma_insert_desc_len(prev, cv, key_message_ts());
        }
        let ghost prev_vec = out@;
        out.insert(pos, c);
        proof {
            lemma_map_values_insert(prev_vec, pos as int, c, message_view());
            assert(message_rows_view(out@) == insert_desc(prev, cv, key_message_ts()));
            assert(rows.take(i + 1).drop_last() =~= rows.take(i as int));
            assert(rows.take(i + 1).last() == rows[i as int]);
            assert(message_rows_view(out@) == sort_desc(rows.take(i + 1), key_message_ts()));
        }
        i = i + 1;
    }
    proof {
        assert(rows.take(n as int) =~= rows);
    }
    out
}

/// Sort peer rows by last seen, newest first.

/// Sort peer rows by last seen, newest first.
fn sort_peers_by_last_seen(v: Vec<(PeerInfo, Reputation)>) -> (r: Vec<(PeerInfo, Reputation)>)
    ensures
        peer_rows_view(r@) == sort_desc(peer_rows_view(v@), key_peer_last_seen()),
{
    let ghost rows = peer_rows_view(v@);
    let n = v.len();
    let mut out: Vec<(PeerInfo, Reputation)> = Vec::new();
    let mut i: usize = 0;
    while i < n
        invariant
            n == v@.len(),
            rows == peer_rows_view(v@),
            i <= n,
            out@.len() == i,
            peer_rows_view(out@) == sort_desc(rows.take(i as int), key_peer_last_seen()),
            sorted_desc_by(peer_rows_view(out@), key_peer_last_seen()),
        decreases n - i,
    {
        let ghost prev = peer_rows_view(out@);
        let c = (v[i].0.clone(), v[i].1.clone());
        let ghost cv = (c.0@, c.1@);
        let kc = v[i].0.last_seen;
        let m = out.len();
        let mut pos: usize = 0;
        while pos < m && out[pos].0.last_seen >= kc
            invariant
                m == out@.len(),
                pos <= m,
                prev == peer_rows_view(out@),
                forall|t: int| 0 <= t < pos ==> #[trigger] prev[t].0.last_seen >= kc,
            decreases m - pos,
        {
            proof {
                assert(prev[pos as int].0.last_seen == out@[pos as int].0@.last_seen);
            }
            pos = pos + 1;
        }
        proof {
            assert(pos < m ==> prev[pos as int].0.last_seen < kc);
            assert(cv == rows[i as int]);
            lemma_insert_desc_at(prev, cv, key_peer_last_seen(), pos as int);
            lemma_insert_desc_sorted(prev, cv, key_peer_last_seen());
            lemma_insert_desc_len(prev, cv, key_peer_last_seen());
        }
        let ghost prev_vec = out@;
        out.insert(pos, c);
        proof {
            lemma_map_values_insert(prev_vec, pos as int, c, peer_pair_view());
            assert(peer_rows_view(out@) == insert_desc(prev, cv, key_peer_last_seen()));
            assert(rows.take(i + 1).drop_last() =~= rows.take(i as int));
            assert(rows.take(i + 1).last() == rows[i as int]);
            assert(peer_rows_view(out@) == sort_desc(rows.take(i + 1), key_peer_last_seen()));
        }
        i = i + 1;
    }
    proof {
        assert(rows.take(n as int) =~= rows);
    }
    out
}

/// Sort peer rows by score, best first.
fn sort_peers_by_score(v: Vec<(PeerInfo, Reputation)>) -> (r: Vec<(PeerInfo, Reputation)>)
    ensures
        peer_rows_view(r@) == sort_desc(peer_rows_view(v@), key_peer_score()),
{
    let ghost rows = peer_rows_view(v@);
    let n = v.len();
    let mut out: Vec<(PeerInfo, Reputation)> = Vec::new();
    let mut i: usize = 0;
    while i < n
        invariant
            n == v@.len(),
            rows == peer_rows_view(v@),
            i <= n,
            out@.len() == i,
            peer_rows_view(out@) == sort_desc(rows.take(i as int), key_peer_score()),
            sorted_desc_by(peer_rows_view(out@), key_peer_score()),
        decreases n - i,
    {
        let ghost prev = peer_rows_view(out@);
        let c = (v[i].0.clone(), v[i].1.clone());
        let ghost cv = (c.0@, c.1@);
        let kc = v[i].1.score_permille;
        let m = out.len();
        let mut pos: usize = 0;
        while pos < m && out[pos].1.score_permille >= kc
            invariant
                m == out@.len(),
                pos <= m,
                prev == peer_rows_view(out@),
                forall|t: int| 0 <= t < pos ==> #[trigger] prev[t].1.score_permille >= kc,
            decreases m - pos,
        {
            proof {
                assert(prev[pos as int].1.score_permille == out@[pos as int].1@.score_permille);
            }
            pos = pos + 1;
        }
        proof {
            assert(pos < m ==> prev[pos as int].1.score_permille < kc);
            assert(cv == rows[i as int]);
            lemma_insert_desc_at(prev, cv, key_peer_score(), pos as int);
            lemma_insert_desc_sorted(prev, cv, key_peer_score());
            lemma_insert_desc_len(prev, cv, key_peer_score());
        }
        let ghost prev_vec = out@;
        out.insert(pos, c);
        proof {
            lemma_map_values_insert(prev_vec, pos as int, c, peer_pair_view());
            assert(peer_rows_view(out@) == insert_desc(prev, cv, key_peer_score()));
            assert(rows.take(i + 1).drop_last() =~= rows.take(i as int));
            assert(rows.take(i + 1).last() == rows[i as int]);
            assert(peer_rows_view(out@) == sort_desc(rows.take(i + 1), key_peer_score()));
        }
        i = i + 1;
    }
    proof {
        assert(rows.take(n as int) =~= rows);
    }
    out
}

/// A found index pins down `peer_index` under key uniqueness.
pub(crate) proof fn lemma_peer_found(rows: Seq<(PeerInfoView, ReputationView)>, k: Seq<char>, i: int)
    requires
        forall|a: int, b: int| 0 <= a < b < rows.len() ==> rows[a].0.id != rows[b].0.id,
        0 <= i < rows.len(),
        rows[i].0.id == k,
    ensures
        has_peer(rows, k),
        peer_index(rows, k) == i,
{
    assert(has_peer(rows, k));
    let w = peer_index(rows, k);
    assert(rows[w].0.id == k);
    if w != i {
        assert(false);
    }
}

/// A peer-table edit leaves the other tables' ghost rows unchanged.
proof fn lemma_unchanged_other_tables(prev: &Store, cur: &Store)
    requires
        prev.messages@ == cur.messages@,
        prev.credits@ == cur.credits@,
        prev.transactions@ == cur.transactions@,
        prev.sync_values@ == cur.sync_values@,
    ensures
        prev.message_rows() == cur.message_rows(),
        prev.credit_rows() == cur.credit_rows(),
        prev.transaction_rows() == cur.transaction_rows(),
        prev.sync_rows() == cur.sync_rows(),
{
}

} // verus!
