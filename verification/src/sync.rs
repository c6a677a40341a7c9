//! State synchronization across the network: the conflict resolver.
//!
//! Each update kind has a fixed merge rule: peer and credit updates are
//! last-writer-wins by timestamp (a tie loses: the existing value stays, so
//! re-applying an update is idempotent); reputation counters are grow-only
//! and merge by maximum; key/value entries merge by version number, the
//! higher version winning. A vector clock is maintained for causality
//! introspection but is deliberately not consulted by the accept rules.
//!
//! Applying an update writes through to the store and then to the cache, so
//! a cached entity always equals what the store holds for it.

use vstd::prelude::*;
use vstd::string::StringExecFns;

use crate::cache::StateCache;
use crate::clock::{max_tick, spec_merge, spec_tick, VectorClock};
use crate::outside::now_seconds;
use crate::store::{
    default_reputation_view, has_credit, has_peer, has_sync, credit_index, peer_index, sync_index,
    spec_dedup, spec_merged_credit, Store,
};
use crate::types::{
    spec_credit_id, spec_score_permille, CreditRelationship, CreditRelationshipView, PeerId,
    PeerInfo, PeerInfoView, Reputation, ReputationView, StateError, SyncValueView,
};
use crate::update::{PeerInfoUpdate, PeerInfoUpdateView, StateUpdate, StateUpdateView};

verus! {

// ========== The merge rules, as specification functions ==========

/// The last-seen key under which peer updates race.
pub open spec fn peer_key(id: Seq<char>) -> Seq<char> {
    "peer:"@ + id
}

/// The last-seen key under which credit updates race.
pub open spec fn credit_key(c: Seq<char>, d: Seq<char>) -> Seq<char> {
    "credit:"@ + c + ":"@ + d
}

/// Last-writer-wins: an incoming timestamp is accepted exactly when it is
/// strictly newer than the last accepted one; a tie loses.
pub open spec fn lww_accepts(last: Option<i64>, ts: int) -> bool {
    match last {
        Some(t) => ts > t,
        None => true,
    }
}

/// Version merge: an incoming version is accepted exactly when it is
/// strictly above the stored one.
pub open spec fn kv_accepts(existing: Option<u64>, version: u64) -> bool {
    match existing {
        Some(x) => version > x,
        None => true,
    }
}

/// Grow-only counters accept an update exactly when some counter would
/// strictly grow.
pub open spec fn rep_accepts(prev: (u64, u64), upd: (u64, u64)) -> bool {
    upd.0 > prev.0 || upd.1 > prev.1
}

/// Grow-only counter merge: component-wise maximum.
pub open spec fn rep_step(prev: (u64, u64), upd: (u64, u64)) -> (u64, u64) {
    (max_tick(prev.0, upd.0), max_tick(prev.1, upd.1))
}

/// The reputation row after an accepted reputation update: counters merged
/// by maximum and the score recomputed from them.
pub open spec fn merged_reputation(prev: ReputationView, s: u64, f: u64) -> ReputationView {
    let ns = max_tick(prev.successful_interactions, s);
    let nf = max_tick(prev.failed_interactions, f);
    ReputationView {
        score_permille: spec_score_permille(ns, nf) as u32,
        successful_interactions: ns,
        failed_interactions: nf,
        ..prev
    }
}

/// The peer record the store holds after an accepted peer update: a known
/// peer keeps its identity, first sighting, and (when the update carries
/// none) its display name; a new peer is created, first seen now. Addresses
/// are stored deduplicated.
pub open spec fn spec_peer_from_update(
    prev: Option<PeerInfoView>,
    peer_id: Seq<char>,
    info: PeerInfoUpdateView,
    now: int,
) -> PeerInfoView {
    match prev {
        Some(p) => PeerInfoView {
            id: p.id,
            public_key: info.public_key,
            addresses: spec_dedup(info.addresses),
            first_seen: p.first_seen,
            last_seen: now,
            name: if info.name is Some {
                info.name
            } else {
                p.name
            },
        },
        None => PeerInfoView {
            id: peer_id,
            public_key: info.public_key,
            addresses: spec_dedup(info.addresses),
            first_seen: now,
            last_seen: now,
            name: info.name,
        },
    }
}

/// The credit row an accepted credit update carries, both timestamps set to
/// the update's own timestamp.
pub open spec fn credit_row_of_update(
    creditor: Seq<char>,
    debtor: Seq<char>,
    credit_limit: i64,
    balance: i64,
    active: bool,
    ts: int,
) -> CreditRelationshipView {
    CreditRelationshipView {
        creditor: creditor,
        debtor: debtor,
        credit_limit: credit_limit,
        balance: balance,
        active: active,
        established: ts,
        last_transaction: ts,
    }
}

/// A lookup in a last-seen map.
pub open spec fn spec_seen_opt(m: Map<Seq<char>, i64>, k: Seq<char>) -> Option<i64> {
    if m.dom().contains(k) {
        Some(m[k])
    } else {
        None
    }
}

// ========== The resolver ==========

/// Whether an entry sequence holds the key `k`.
spec fn ls_has(s: Seq<(String, i64)>, k: Seq<char>) -> bool {
    exists|i: int| 0 <= i < s.len() && s[i].0@ == k
}

/// An index at which an entry sequence holds the key `k`.
spec fn ls_at(s: Seq<(String, i64)>, k: Seq<char>) -> int {
    choose|i: int| 0 <= i < s.len() && s[i].0@ == k
}

/// The ghost image of a pending update.
pub open spec fn update_view() -> spec_fn(StateUpdate) -> StateUpdateView {
    |u: StateUpdate| u@
}

/// State synchronization manager: the local peer's vector clock, the
/// last-seen timestamps that drive last-writer-wins, and the queue of
/// locally created updates awaiting publication.
pub struct StateSync {
    local_peer_id: String,
    clock: VectorClock,
    last_seen: Vec<(String, i64)>,
    pending_updates: Vec<StateUpdate>,
}

impl StateSync {
    /// The local peer id.
    pub closed spec fn local_id(&self) -> Seq<char> {
        self.local_peer_id@
    }

    /// The vector clock, as a map from peer id to tick.
    pub closed spec fn clock_view(&self) -> Map<Seq<char>, u64> {
        self.clock@
    }

    /// The last accepted timestamp per update key.
    pub closed spec fn seen(&self) -> Map<Seq<char>, i64> {
        Map::new(
            |k: Seq<char>| ls_has(self.last_seen@, k),
            |k: Seq<char>| self.last_seen@[ls_at(self.last_seen@, k)].1,
        )
    }

    /// The last accepted timestamp for one update key, if any.
    pub open spec fn seen_opt(&self, k: Seq<char>) -> Option<i64> {
        spec_seen_opt(self.seen(), k)
    }

    /// The queued updates, oldest first.
    pub closed spec fn pending(&self) -> Seq<StateUpdateView> {
        self.pending_updates@.map_values(update_view())
    }

    pub closed spec fn wf(&self) -> bool {
        &&& self.clock.wf()
        &&& forall|i: int, j: int|
            0 <= i < j < self.last_seen@.len() ==> self.last_seen@[i].0@ != self.last_seen@[j].0@
    }

    proof fn lemma_seen_at(&self, i: int)
        requires
            self.wf(),
            0 <= i < self.last_seen@.len(),
        ensures
            self.seen().dom().contains(self.last_seen@[i].0@),
            self.seen()[self.last_seen@[i].0@] == self.last_seen@[i].1,
    {
        let k = self.last_seen@[i].0@;
        assert(ls_has(self.last_seen@, k));
        let w = ls_at(self.last_seen@, k);
        assert(self.last_seen@[w].0@ == k);
        if w != i {
            assert(false);
        }
    }

    proof fn lemma_seen_absent(&self, k: Seq<char>)
        requires
            forall|i: int| 0 <= i < self.last_seen@.len() ==> self.last_seen@[i].0@ != k,
        ensures
            !self.seen().dom().contains(k),
            self.seen_opt(k) is None,
    {
        assert(!ls_has(self.last_seen@, k));
    }

    /// A new state sync manager for this peer: empty clock, no last-seen
    /// timestamps, nothing pending.
    pub fn new(local_peer_id: String) -> (r: Self)
        ensures
            r.wf(),
            r.local_id() == local_peer_id@,
            r.clock_view() == Map::<Seq<char>, u64>::empty(),
            r.seen() == Map::<Seq<char>, i64>::empty(),
            r.pending() == Seq::<StateUpdateView>::empty(),
    {
        let r = StateSync {
            local_peer_id,
            clock: VectorClock::new(),
            last_seen: Vec::new(),
            pending_updates: Vec::new(),
        };
        proof {
            assert(r.seen() =~= Map::<Seq<char>, i64>::empty());
            assert(r.pending() =~= Seq::<StateUpdateView>::empty());
        }
        r
    }

    /// The last accepted timestamp for an update key.
    fn last_ts(&self, key: &str) -> (r: Option<i64>)
        requires
            self.wf(),
        ensures
            r == self.seen_opt(key@),
    {
        let owned = key.to_owned();
        let n = self.last_seen.len();
        let mut i: usize = 0;
        while i < n
            invariant
                self.wf(),
                n == self.last_seen@.len(),
                owned@ == key@,
                i <= n,
                forall|j: int| 0 <= j < i ==> self.last_seen@[j].0@ != key@,
            decreases n - i,
        {
            if self.last_seen[i].0 == owned {
                proof {
                    self.lemma_seen_at(i as int);
                }
                return Some(self.last_seen[i].1);
            }
            i = i + 1;
        }
        proof {
            self.lemma_seen_absent(key@);
        }
        None
    }

    /// Record the newest accepted timestamp for an update key.
    fn record_ts(&mut self, key: String, ts: i64)
        requires
            old(self).wf(),
        ensures
            final(self).wf(),
            final(self).seen() == old(self).seen().insert(key@, ts),
            final(self).clock_view() == old(self).clock_view(),
            final(self).pending() == old(self).pending(),
            final(self).local_id() == old(self).local_id(),
    {
        let ghost target = old(self).seen().insert(key@, ts);
        let n = self.last_seen.len();
        let mut i: usize = 0;
        while i < n
            invariant
                *self == *old(self),
                self.wf(),
                n == self.last_seen@.len(),
                i <= n,
                forall|j: int| 0 <= j < i ==> self.last_seen@[j].0@ != key@,
            decreases n - i,
        {
            if self.last_seen[i].0 == key {
                proof {
                    self.lemma_seen_at(i as int);
                }
                self.last_seen.set(i, (key, ts));
                proof {
                    let ghost target = old(self).seen().insert(old(self).last_seen@[i as int].0@, ts);
                    assert(old(self).wf());
                    assert(old(self).last_seen@[i as int].0@ == key@);
                    assert(self.last_seen@[i as int].0@ == key@);
                    assert forall|q: Seq<char>| #[trigger]
                        ls_has(self.last_seen@, q) == ls_has(old(self).last_seen@, q) by {
                        if ls_has(old(self).last_seen@, q) {
                            let w = ls_at(old(self).last_seen@, q);
                            assert(self.last_seen@[w].0@ == q);
                        }
                        if ls_has(self.last_seen@, q) {
                            let w = ls_at(self.last_seen@, q);
                            assert(old(self).last_seen@[w].0@ == q);
                        }
                    }
                    assert forall|a: int, b: int|
                        0 <= a < b < self.last_seen@.len() implies self.last_seen@[a].0@
                        != self.last_seen@[b].0@ by {
                        assert(old(self).last_seen@[a].0@ != old(self).last_seen@[b].0@);
                    }
                    assert forall|q: Seq<char>| ls_has(self.last_seen@, q) implies self.seen()[q]
                        == target[q] by {
                        let w = ls_at(self.last_seen@, q);
                        assert(self.last_seen@[w].0@ == q);
                        if q == key@ {
                            assert(w == i) by {
                                if w != i {
                                    assert(old(self).last_seen@[w].0@ == q);
                                    assert(old(self).last_seen@[i as int].0@ == q);
                                    assert(false);
                                }
                            }
                            self.lemma_seen_at(i as int);
                        } else {
                            assert(w != i);
                            assert(old(self).last_seen@[w].0@ == q);
                            old(self).lemma_seen_at(w);
                            self.lemma_seen_at(w);
                        }
                    }
                    assert(self.seen() =~= target);
                }
                return ;
            }
            i = i + 1;
        }
        proof {
            old(self).lemma_seen_absent(key@);
        }
        self.last_seen.push((key, ts));
        proof {
            let nn = old(self).last_seen@.len() as int;
            assert(self.last_seen@[nn].0@ == key@);
            assert forall|a: int, b: int|
                0 <= a < b < self.last_seen@.len() implies self.last_seen@[a].0@
                != self.last_seen@[b].0@ by {
                if b < nn {
                    assert(old(self).last_seen@[a].0@ != old(self).last_seen@[b].0@);
                } else {
                    assert(self.last_seen@[a] == old(self).last_seen@[a]);
                    assert(old(self).last_seen@[a].0@ != key@);
                }
            }
            assert forall|q: Seq<char>| ls_has(self.last_seen@, q) implies self.seen()[q]
                == target[q] by {
                let w = ls_at(self.last_seen@, q);
                assert(self.last_seen@[w].0@ == q);
                if q == key@ {
                    assert(w == nn) by {
                        if w < nn {
                            assert(old(self).last_seen@[w].0@ == q);
                        }
                    }
                } else {
                    assert(w < nn);
                    assert(old(self).last_seen@[w].0@ == q);
                    old(self).lemma_seen_at(w);
                    self.lemma_seen_at(w);
                }
            }
            assert forall|q: Seq<char>| #[trigger] target.dom().contains(q) implies
                self.seen().dom().contains(q) by {
                if q == key@ {
                    assert(ls_has(self.last_seen@, q));
                } else {
                    let w = ls_at(old(self).last_seen@, q);
                    assert(self.last_seen@[w].0@ == q);
                    assert(ls_has(self.last_seen@, q));
                }
            }
            assert(self.seen() =~= target);
        }
    }

    /// Stamp and sign off a locally created update: the local clock ticks
    /// once.
    fn bump_clock(&mut self)
        requires
            old(self).wf(),
            spec_tick(old(self).clock_view(), old(self).local_id()) < u64::MAX,
        ensures
            final(self).wf(),
            final(self).clock_view() == old(self).clock_view().insert(
                old(self).local_id(),
                (spec_tick(old(self).clock_view(), old(self).local_id()) + 1) as u64,
            ),
            final(self).seen() == old(self).seen(),
            final(self).pending() == old(self).pending(),
            final(self).local_id() == old(self).local_id(),
    {
        let id = self.local_peer_id.clone();
        self.clock.increment(id.as_str());
        proof {
            assert(self.seen() =~= old(self).seen());
        }
    }

    /// A peer update carrying this peer record, stamped `now`.
    pub fn create_peer_update_at(&mut self, peer_info: &PeerInfo, now: i64) -> (r: StateUpdate)
        requires
            old(self).wf(),
            spec_tick(old(self).clock_view(), old(self).local_id()) < u64::MAX,
        ensures
            final(self).wf(),
            final(self).clock_view() == old(self).clock_view().insert(
                old(self).local_id(),
                (spec_tick(old(self).clock_view(), old(self).local_id()) + 1) as u64,
            ),
            final(self).seen() == old(self).seen(),
            final(self).pending() == old(self).pending(),
            final(self).local_id() == old(self).local_id(),
            r@ == (StateUpdateView::PeerUpdate {
                peer_id: peer_info@.id,
                info: PeerInfoUpdateView {
                    public_key: peer_info@.public_key,
                    addresses: peer_info@.addresses,
                    name: peer_info@.name,
                },
                timestamp: now as int,
            }),
    {
        self.bump_clock();
        let r = StateUpdate::PeerUpdate {
            peer_id: peer_info.id.0.clone(),
            info: PeerInfoUpdate {
                public_key: peer_info.public_key.clone(),
                addresses: peer_info.addresses.clone(),
                name: match &peer_info.name {
                    Some(s) => Some(s.clone()),
                    None => None,
                },
            },
            timestamp: now,
        };
        proof {
            assert(r@ =~= (StateUpdateView::PeerUpdate {
                peer_id: peer_info@.id,
                info: PeerInfoUpdateView {
                    public_key: peer_info@.public_key,
                    addresses: peer_info@.addresses,
                    name: peer_info@.name,
                },
                timestamp: now as int,
            }));
        }
        r
    }

    /// A peer update stamped with the current wall-clock time.
    pub fn create_peer_update(&mut self, peer_info: &PeerInfo) -> (r: StateUpdate)
        requires
            old(self).wf(),
            spec_tick(old(self).clock_view(), old(self).local_id()) < u64::MAX,
        ensures
            final(self).wf(),
            final(self).clock_view() == old(self).clock_view().insert(
                old(self).local_id(),
                (spec_tick(old(self).clock_view(), old(self).local_id()) + 1) as u64,
            ),
            final(self).seen() == old(self).seen(),
            final(self).pending() == old(self).pending(),
            final(self).local_id() == old(self).local_id(),
            r@ matches StateUpdateView::PeerUpdate { peer_id, info, .. } && peer_id == peer_info@.id
                && info == (PeerInfoUpdateView {
                public_key: peer_info@.public_key,
                addresses: peer_info@.addresses,
                name: peer_info@.name,
            }),
    {
        let now = now_seconds();
        self.create_peer_update_at(peer_info, now)
    }

    /// A reputation update carrying this peer's grow-only counters, stamped
    /// `now`.
    pub fn create_reputation_update_at(
        &mut self,
        peer_id: &str,
        reputation: &Reputation,
        now: i64,
    ) -> (r: StateUpdate)
        requires
            old(self).wf(),
            spec_tick(old(self).clock_view(), old(self).local_id()) < u64::MAX,
        ensures
            final(self).wf(),
            final(self).clock_view() == old(self).clock_view().insert(
                old(self).local_id(),
                (spec_tick(old(self).clock_view(), old(self).local_id()) + 1) as u64,
            ),
            final(self).seen() == old(self).seen(),
            final(self).pending() == old(self).pending(),
            final(self).local_id() == old(self).local_id(),
            r@ == (StateUpdateView::ReputationUpdate {
                peer_id: peer_id@,
                successful_interactions: reputation@.successful_interactions,
                failed_interactions: reputation@.failed_interactions,
                timestamp: now as int,
            }),
    {
        self.bump_clock();
        StateUpdate::ReputationUpdate {
            peer_id: peer_id.to_owned(),
            successful_interactions: reputation.successful_interactions,
            failed_interactions: reputation.failed_interactions,
            timestamp: now,
        }
    }

    /// A reputation update stamped with the current wall-clock time.
    pub fn create_reputation_update(&mut self, peer_id: &str, reputation: &Reputation) -> (r:
        StateUpdate)
        requires
            old(self).wf(),
            spec_tick(old(self).clock_view(), old(self).local_id()) < u64::MAX,
        ensures
            final(self).wf(),
            final(self).seen() == old(self).seen(),
            final(self).pending() == old(self).pending(),
            final(self).local_id() == old(self).local_id(),
            r@ matches StateUpdateView::ReputationUpdate {
                peer_id: p,
                successful_interactions,
                failed_interactions,
                ..
            } && p == peer_id@ && successful_interactions
                == reputation@.successful_interactions && failed_interactions
                == reputation@.failed_interactions,
    {
        let now = now_seconds();
        self.create_reputation_update_at(peer_id, reputation, now)
    }

    /// A credit update carrying this relationship, stamped `now`.
    pub fn create_credit_update_at(
        &mut self,
        relationship: &CreditRelationship,
        now: i64,
    ) -> (r: StateUpdate)
        requires
            old(self).wf(),
            spec_tick(old(self).clock_view(), old(self).local_id()) < u64::MAX,
        ensures
            final(self).wf(),
            final(self).seen() == old(self).seen(),
            final(self).pending() == old(self).pending(),
            final(self).local_id() == old(self).local_id(),
            r@ == (StateUpdateView::CreditUpdate {
                creditor: relationship@.creditor,
                debtor: relationship@.debtor,
                credit_limit: relationship@.credit_limit,
                balance: relationship@.balance,
                active: relationship@.active,
                timestamp: now as int,
            }),
    {
        self.bump_clock();
        StateUpdate::CreditUpdate {
            creditor: relationship.creditor.0.clone(),
            debtor: relationship.debtor.0.clone(),
            credit_limit: relationship.credit_limit,
            balance: relationship.balance,
            active: relationship.active,
            timestamp: now,
        }
    }

    /// A credit update stamped with the current wall-clock time.
    pub fn create_credit_update(&mut self, relationship: &CreditRelationship) -> (r: StateUpdate)
        requires
            old(self).wf(),
            spec_tick(old(self).clock_view(), old(self).local_id()) < u64::MAX,
        ensures
            final(self).wf(),
            final(self).seen() == old(self).seen(),
            final(self).pending() == old(self).pending(),
            final(self).local_id() == old(self).local_id(),
            r@ matches StateUpdateView::CreditUpdate { creditor, debtor, credit_limit, balance, active, .. }
                && creditor == relationship@.creditor && debtor == relationship@.debtor
                && credit_limit == relationship@.credit_limit && balance == relationship@.balance
                && active == relationship@.active,
    {
        let now = now_seconds();
        self.create_credit_update_at(relationship, now)
    }

    /// A key/value update carrying this entry, stamped `now`.
    pub fn create_kv_update_at(
        &mut self,
        key: &str,
        value: Vec<u8>,
        version: u64,
        now: i64,
    ) -> (r: StateUpdate)
        requires
            old(self).wf(),
            spec_tick(old(self).clock_view(), old(self).local_id()) < u64::MAX,
        ensures
            final(self).wf(),
            final(self).seen() == old(self).seen(),
            final(self).pending() == old(self).pending(),
            final(self).local_id() == old(self).local_id(),
            r@ == (StateUpdateView::KeyValueUpdate {
                key: key@,
                value: value@,
                version: version,
                timestamp: now as int,
            }),
    {
        self.bump_clock();
        StateUpdate::KeyValueUpdate { key: key.to_owned(), value, version, timestamp: now }
    }

    /// A key/value update stamped with the current wall-clock time.
    pub fn create_kv_update(&mut self, key: &str, value: Vec<u8>, version: u64) -> (r: StateUpdate)
        requires
            old(self).wf(),
            spec_tick(old(self).clock_view(), old(self).local_id()) < u64::MAX,
        ensures
            final(self).wf(),
            final(self).seen() == old(self).seen(),
            final(self).pending() == old(self).pending(),
            final(self).local_id() == old(self).local_id(),
            r@ matches StateUpdateView::KeyValueUpdate { key: k, value: v, version: ver, .. } && k
                == key@ && v == value@ && ver == version,
    {
        let now = now_seconds();
        self.create_kv_update_at(key, value, version, now)
    }

    /// Queue an update for publication.
    pub fn queue_update(&mut self, update: StateUpdate)
        requires
            old(self).wf(),
        ensures
            final(self).wf(),
            final(self).pending() == old(self).pending().push(update@),
            final(self).seen() == old(self).seen(),
            final(self).clock_view() == old(self).clock_view(),
            final(self).local_id() == old(self).local_id(),
    {
        let ghost uv = update@;
        self.pending_updates.push(update);
        proof {
            assert(self.pending() =~= old(self).pending().push(uv));
            assert(self.seen() =~= old(self).seen());
        }
    }

    /// Hand out the queued updates and clear the queue.
    pub fn drain_pending_updates(&mut self) -> (r: Vec<StateUpdate>)
        requires
            old(self).wf(),
        ensures
            final(self).wf(),
            r@.map_values(update_view()) == old(self).pending(),
            final(self).pending() == Seq::<StateUpdateView>::empty(),
            final(self).seen() == old(self).seen(),
            final(self).clock_view() == old(self).clock_view(),
            final(self).local_id() == old(self).local_id(),
    {
        let mut drained: Vec<StateUpdate> = Vec::new();
        core::mem::swap(&mut self.pending_updates, &mut drained);
        proof {
            assert(self.pending() =~= Seq::<StateUpdateView>::empty());
            assert(self.seen() =~= old(self).seen());
        }
        drained
    }

    /// A copy of the current vector clock.
    pub fn get_clock(&self) -> (r: VectorClock)
        requires
            self.wf(),
        ensures
            r@ == self.clock_view(),
            r.wf(),
    {
        self.clock.clone()
    }

    /// Merge a remote vector clock into the local one, element-wise by
    /// maximum.
    pub fn merge_clock(&mut self, remote: &VectorClock)
        requires
            old(self).wf(),
            remote.wf(),
        ensures
            final(self).wf(),
            final(self).clock_view() == spec_merge(old(self).clock_view(), remote@),
            final(self).seen() == old(self).seen(),
            final(self).pending() == old(self).pending(),
            final(self).local_id() == old(self).local_id(),
    {
        self.clock.merge(remote);
        proof {
            assert(self.seen() =~= old(self).seen());
        }
    }
}

// ========== What applying an update does ==========

/// What applying a peer update does: accepted exactly when its timestamp
/// beats the last accepted one for this peer; on accept the stored record
/// is merged, the timestamp is recorded, and the cache mirrors the store.
pub open spec fn applied_peer_update(
    pre_sync: StateSync,
    post_sync: StateSync,
    pre_store: Store,
    post_store: Store,
    pre_cache: StateCache,
    post_cache: StateCache,
    peer_id: Seq<char>,
    info: PeerInfoUpdateView,
    ts: i64,
    now: i64,
    accepted: bool,
) -> bool {
    let key = peer_key(peer_id);
    &&& accepted == lww_accepts(pre_sync.seen_opt(key), ts as int)
    &&& !accepted ==> post_sync == pre_sync && post_store == pre_store && post_cache == pre_cache
    &&& accepted ==> {
        let rows = pre_store.peer_rows();
        let prev = if has_peer(rows, peer_id) {
            Some(rows[peer_index(rows, peer_id)])
        } else {
            None
        };
        let stored = spec_peer_from_update(
            match prev {
                Some(p) => Some(p.0),
                None => None,
            },
            peer_id,
            info,
            now as int,
        );
        let rep = match prev {
            Some(p) => p.1,
            None => default_reputation_view(),
        };
        &&& post_sync.seen() == pre_sync.seen().insert(key, ts)
        &&& post_sync.clock_view() == pre_sync.clock_view()
        &&& post_sync.pending() == pre_sync.pending()
        &&& post_sync.local_id() == pre_sync.local_id()
        &&& (match prev {
            Some(_) => post_store.peer_rows() == rows.update(
                peer_index(rows, peer_id),
                (stored, rep),
            ),
            None => post_store.peer_rows() == rows.push((stored, rep)),
        })
        &&& has_peer(post_store.peer_rows(), peer_id)
        &&& post_store.peer_rows()[peer_index(post_store.peer_rows(), peer_id)] == (stored, rep)
        &&& post_store.message_rows() == pre_store.message_rows()
        &&& post_store.credit_rows() == pre_store.credit_rows()
        &&& post_store.transaction_rows() == pre_store.transaction_rows()
        &&& post_store.sync_rows() == pre_store.sync_rows()
        &&& post_cache.peers.lookup(peer_id) == Some((stored, rep))
        &&& forall|q: Seq<char>|
            q != peer_id && #[trigger] post_cache.peers.lookup(q) is Some
                ==> post_cache.peers.lookup(q) == pre_cache.peers.lookup(q)
        &&& post_cache.messages == pre_cache.messages
        &&& post_cache.credits == pre_cache.credits
    }
}

/// What applying a reputation update does: dropped silently for an unknown
/// peer; otherwise accepted exactly when a counter strictly grows, in which
/// case counters merge by maximum, the score is recomputed, and the cache
/// mirrors the store.
pub open spec fn applied_reputation_update(
    pre_sync: StateSync,
    post_sync: StateSync,
    pre_store: Store,
    post_store: Store,
    pre_cache: StateCache,
    post_cache: StateCache,
    peer_id: Seq<char>,
    s: u64,
    f: u64,
    accepted: bool,
) -> bool {
    let rows = pre_store.peer_rows();
    &&& post_sync == pre_sync
    &&& !has_peer(rows, peer_id) ==> !accepted && post_store == pre_store && post_cache
        == pre_cache
    &&& has_peer(rows, peer_id) ==> {
        let i = peer_index(rows, peer_id);
        let prev = rows[i];
        &&& accepted == rep_accepts(
            (prev.1.successful_interactions, prev.1.failed_interactions),
            (s, f),
        )
        &&& !accepted ==> post_store == pre_store && post_cache == pre_cache
        &&& accepted ==> {
            let merged = merged_reputation(prev.1, s, f);
            &&& post_store.peer_rows() == rows.update(i, (prev.0, merged))
            &&& post_store.message_rows() == pre_store.message_rows()
            &&& post_store.credit_rows() == pre_store.credit_rows()
            &&& post_store.transaction_rows() == pre_store.transaction_rows()
            &&& post_store.sync_rows() == pre_store.sync_rows()
            &&& post_cache.peers.lookup(peer_id) == Some((prev.0, merged))
            &&& forall|q: Seq<char>|
                q != peer_id && #[trigger] post_cache.peers.lookup(q) is Some
                    ==> post_cache.peers.lookup(q) == pre_cache.peers.lookup(q)
            &&& post_cache.messages == pre_cache.messages
            &&& post_cache.credits == pre_cache.credits
        }
    }
}

/// What applying a credit update does: accepted exactly when its timestamp
/// beats the last accepted one for this (creditor, debtor) pair — unknown
/// endpoints are tolerated — and on accept the row is upserted (an existing
/// row keeps its establishment time), the timestamp recorded, and the cache
/// mirrors the store.
pub open spec fn applied_credit_update(
    pre_sync: StateSync,
    post_sync: StateSync,
    pre_store: Store,
    post_store: Store,
    pre_cache: StateCache,
    post_cache: StateCache,
    creditor: Seq<char>,
    debtor: Seq<char>,
    credit_limit: i64,
    balance: i64,
    active: bool,
    ts: i64,
    accepted: bool,
) -> bool {
    let key = credit_key(creditor, debtor);
    &&& accepted == lww_accepts(pre_sync.seen_opt(key), ts as int)
    &&& !accepted ==> post_sync == pre_sync && post_store == pre_store && post_cache == pre_cache
    &&& accepted ==> {
        let rows = pre_store.credit_rows();
        let incoming = credit_row_of_update(creditor, debtor, credit_limit, balance, active, ts as int);
        let stored = if has_credit(rows, creditor, debtor) {
            spec_merged_credit(rows[credit_index(rows, creditor, debtor)], incoming)
        } else {
            incoming
        };
        &&& post_sync.seen() == pre_sync.seen().insert(key, ts)
        &&& post_sync.clock_view() == pre_sync.clock_view()
        &&& post_sync.pending() == pre_sync.pending()
        &&& post_sync.local_id() == pre_sync.local_id()
        &&& (if has_credit(rows, creditor, debtor) {
            post_store.credit_rows() == rows.update(
                credit_index(rows, creditor, debtor),
                stored,
            )
        } else {
            post_store.credit_rows() == rows.push(stored)
        })
        &&& has_credit(post_store.credit_rows(), creditor, debtor)
        &&& post_store.credit_rows()[credit_index(post_store.credit_rows(), creditor, debtor)]
            == stored
        &&& post_store.peer_rows() == pre_store.peer_rows()
        &&& post_store.message_rows() == pre_store.message_rows()
        &&& post_store.transaction_rows() == pre_store.transaction_rows()
        &&& post_store.sync_rows() == pre_store.sync_rows()
        &&& post_cache.credits.lookup(spec_credit_id(creditor, debtor)) == Some(stored)
        &&& forall|q: Seq<char>|
            q != spec_credit_id(creditor, debtor) && #[trigger] post_cache.credits.lookup(q)
                is Some ==> post_cache.credits.lookup(q) == pre_cache.credits.lookup(q)
        &&& post_cache.peers == pre_cache.peers
        &&& post_cache.messages == pre_cache.messages
    }
}

/// What applying a key/value update does: accepted exactly when the
/// incoming version is strictly above the stored one (a missing key always
/// accepts); on accept the incoming version itself is stored — the higher
/// version wins.
pub open spec fn applied_kv_update(
    pre_sync: StateSync,
    post_sync: StateSync,
    pre_store: Store,
    post_store: Store,
    pre_cache: StateCache,
    post_cache: StateCache,
    key: Seq<char>,
    value: Seq<u8>,
    version: u64,
    accepted: bool,
) -> bool {
    let rows = pre_store.sync_rows();
    let existing = if has_sync(rows, key) {
        Some(rows[sync_index(rows, key)].version)
    } else {
        None
    };
    &&& post_sync == pre_sync
    &&& post_cache == pre_cache
    &&& accepted == kv_accepts(existing, version)
    &&& !accepted ==> post_store == pre_store
    &&& accepted ==> {
        let row = SyncValueView { key: key, value: value, version: version };
        &&& (if has_sync(rows, key) {
            post_store.sync_rows() == rows.update(sync_index(rows, key), row)
        } else {
            post_store.sync_rows() == rows.push(row)
        })
        &&& has_sync(post_store.sync_rows(), key)
        &&& post_store.sync_rows()[sync_index(post_store.sync_rows(), key)] == row
        &&& post_store.peer_rows() == pre_store.peer_rows()
        &&& post_store.message_rows() == pre_store.message_rows()
        &&& post_store.credit_rows() == pre_store.credit_rows()
        &&& post_store.transaction_rows() == pre_store.transaction_rows()
    }
}

/// Same as [`applied_peer_update`], at some write time.
pub open spec fn applied_peer_update_some_time(
    pre_sync: StateSync,
    post_sync: StateSync,
    pre_store: Store,
    post_store: Store,
    pre_cache: StateCache,
    post_cache: StateCache,
    peer_id: Seq<char>,
    info: PeerInfoUpdateView,
    ts: i64,
    accepted: bool,
) -> bool {
    exists|now: i64|
        applied_peer_update(
            pre_sync,
            post_sync,
            pre_store,
            post_store,
            pre_cache,
            post_cache,
            peer_id,
            info,
            ts,
            now,
            accepted,
        )
}

impl StateSync {
    /// Apply a peer update using last-writer-wins.
    fn apply_peer_update(
        &mut self,
        peer_id: &str,
        info: &PeerInfoUpdate,
        timestamp: i64,
        store: &mut Store,
        cache: &mut StateCache,
        now: i64,
    ) -> (r: Result<bool, StateError>)
        requires
            old(self).wf(),
            old(store).wf(),
            old(cache).wf(),
        ensures
            final(self).wf(),
            final(store).wf(),
            final(cache).wf(),
            r matches Ok(acc) && applied_peer_update(
                *old(self),
                *final(self),
                *old(store),
                *final(store),
                *old(cache),
                *final(cache),
                peer_id@,
                info@,
                timestamp,
                now,
                acc,
            ),
    {
        let mut key = "peer:".to_owned();
        key.append(peer_id);
        proof {
            assert(key@ == peer_key(peer_id@));
        }
        let accept = match self.last_ts(key.as_str()) {
            Some(t) => timestamp > t,
            None => true,
        };
        if !accept {
            return Ok(false);
        }
        let built = match store.get_peer(peer_id) {
            Ok(Some((existing, _rep))) => {
                PeerInfo {
                    id: existing.id,
                    public_key: info.public_key.clone(),
                    addresses: info.addresses.clone(),
                    first_seen: existing.first_seen,
                    last_seen: now,
                    name: match &info.name {
                        Some(s) => Some(s.clone()),
                        None => None,
                    },
                }
            },
            Ok(None) => {
                PeerInfo {
                    id: PeerId(peer_id.to_owned()),
                    public_key: info.public_key.clone(),
                    addresses: info.addresses.clone(),
                    first_seen: now,
                    last_seen: now,
                    name: match &info.name {
                        Some(s) => Some(s.clone()),
                        None => None,
                    },
                }
            },
            Err(e) => {
                return Err(e);
            },
        };
        match store.upsert_peer(&built, None) {
            Ok(()) => {},
            Err(e) => {
                return Err(e);
            },
        }
        self.record_ts(key, timestamp);
        let ghost rows = old(store).peer_rows();
        proof {
            if has_peer(rows, peer_id@) {
                assert(store.peer_rows()[peer_index(rows, peer_id@)].0.id == peer_id@);
                crate::store::lemma_peer_found(store.peer_rows(), peer_id@, peer_index(rows, peer_id@));
            } else {
                let n = rows.len() as int;
                assert(store.peer_rows()[n].0.id == peer_id@);
                crate::store::lemma_peer_found(store.peer_rows(), peer_id@, n);
            }
        }
        match store.get_peer(peer_id) {
            Ok(Some((fetched_info, fetched_rep))) => {
                cache.peers.insert(fetched_info, fetched_rep);
                Ok(true)
            },
            Ok(None) => {
                proof {
                    assert(false);
                }
                Ok(false)
            },
            Err(e) => Err(e),
        }
    }

    /// Apply a reputation update using grow-only counters.
    fn apply_reputation_update(
        &mut self,
        peer_id: &str,
        successful: u64,
        failed: u64,
        store: &mut Store,
        cache: &mut StateCache,
    ) -> (r: Result<bool, StateError>)
        requires
            old(self).wf(),
            old(store).wf(),
            old(cache).wf(),
        ensures
            final(self).wf(),
            final(store).wf(),
            final(cache).wf(),
            r matches Ok(acc) && applied_reputation_update(
                *old(self),
                *final(self),
                *old(store),
                *final(store),
                *old(cache),
                *final(cache),
                peer_id@,
                successful,
                failed,
                acc,
            ),
    {
        let fetched = match store.get_peer(peer_id) {
            Ok(Some(row)) => row,
            Ok(None) => {
                return Ok(false);
            },
            Err(e) => {
                return Err(e);
            },
        };
        let (peer_info, mut reputation) = fetched;
        let updated = successful > reputation.successful_interactions || failed
            > reputation.failed_interactions;
        if !updated {
            return Ok(false);
        }
        if successful > reputation.successful_interactions {
            reputation.successful_interactions = successful;
        }
        if failed > reputation.failed_interactions {
            reputation.failed_interactions = failed;
        }
        reputation.recompute_score();
        let ghost rows = old(store).peer_rows();
        let ghost idx = peer_index(rows, peer_id@);
        proof {
            assert(reputation@ =~= merged_reputation(rows[idx].1, successful, failed));
        }
        match store.update_peer_reputation(peer_id, &reputation) {
            Ok(()) => {},
            Err(e) => {
                return Err(e);
            },
        }
        cache.peers.insert(peer_info, reputation);
        Ok(true)
    }

    /// Apply a credit update using last-writer-wins; unknown endpoints are
    /// tolerated, so the relationship may be learned before its peers.
    fn apply_credit_update(
        &mut self,
        creditor: &str,
        debtor: &str,
        credit_limit: i64,
        balance: i64,
        active: bool,
        timestamp: i64,
        store: &mut Store,
        cache: &mut StateCache,
    ) -> (r: Result<bool, StateError>)
        requires
            old(self).wf(),
            old(store).wf(),
            old(cache).wf(),
        ensures
            final(self).wf(),
            final(store).wf(),
            final(cache).wf(),
            r matches Ok(acc) && applied_credit_update(
                *old(self),
                *final(self),
                *old(store),
                *final(store),
                *old(cache),
                *final(cache),
                creditor@,
                debtor@,
                credit_limit,
                balance,
                active,
                timestamp,
                acc,
            ),
    {
        let mut key = "credit:".to_owned();
        key.append(creditor);
        key.append(":");
        key.append(debtor);
        proof {
            assert(key@ == credit_key(creditor@, debtor@));
        }
        let accept = match self.last_ts(key.as_str()) {
            Some(t) => timestamp > t,
            None => true,
        };
        if !accept {
            return Ok(false);
        }
        let relationship = CreditRelationship {
            creditor: PeerId(creditor.to_owned()),
            debtor: PeerId(debtor.to_owned()),
            credit_limit,
            balance,
            active,
            established: timestamp,
            last_transaction: timestamp,
        };
        match store.upsert_credit_relationship(&relationship) {
            Ok(_) => {},
            Err(e) => {
                return Err(e);
            },
        }
        self.record_ts(key, timestamp);
        let ghost rows = old(store).credit_rows();
        proof {
            if has_credit(rows, creditor@, debtor@) {
                crate::store::lemma_credit_found(
                    store.credit_rows(),
                    creditor@,
                    debtor@,
                    credit_index(rows, creditor@, debtor@),
                );
            } else {
                crate::store::lemma_credit_found(
                    store.credit_rows(),
                    creditor@,
                    debtor@,
                    rows.len() as int,
                );
            }
        }
        match store.get_credit_relationship_between(creditor, debtor) {
            Ok(Some(fetched)) => {
                cache.credits.insert(fetched);
                Ok(true)
            },
            Ok(None) => {
                proof {
                    assert(false);
                }
                Ok(false)
            },
            Err(e) => Err(e),
        }
    }

    /// Apply a key/value update using version numbers: the higher version
    /// wins and is stored as-is.
    fn apply_kv_update(
        &mut self,
        key: &str,
        value: &[u8],
        version: u64,
        store: &mut Store,
        cache: &StateCache,
    ) -> (r: Result<bool, StateError>)
        requires
            old(self).wf(),
            old(store).wf(),
        ensures
            final(self).wf(),
            final(store).wf(),
            *final(self) == *old(self),
            r matches Ok(acc) && applied_kv_update(
                *old(self),
                *final(self),
                *old(store),
                *final(store),
                *cache,
                *cache,
                key@,
                value@,
                version,
                acc,
            ),
    {
        match store.get_sync_value(key) {
            Ok(Some((_, existing_version))) => {
                if existing_version >= version {
                    return Ok(false);
                }
            },
            Ok(None) => {},
            Err(e) => {
                return Err(e);
            },
        }
        match store.put_sync_value_at(key, value, version) {
            Ok(()) => {},
            Err(e) => {
                return Err(e);
            },
        }
        let ghost rows = old(store).sync_rows();
        proof {
            if has_sync(rows, key@) {
                crate::store::lemma_sync_found(
                    store.sync_rows(),
                    key@,
                    sync_index(rows, key@),
                );
            } else {
                crate::store::lemma_sync_found(store.sync_rows(), key@, rows.len() as int);
            }
        }
        Ok(true)
    }

    /// Apply an update received from the network at time `now`, writing
    /// through to the store and then to the cache. The result says whether
    /// the update was accepted by its kind's merge rule.
    pub fn apply_update_at(
        &mut self,
        update: &StateUpdate,
        store: &mut Store,
        cache: &mut StateCache,
        now: i64,
    ) -> (r: Result<bool, StateError>)
        requires
            old(self).wf(),
            old(store).wf(),
            old(cache).wf(),
        ensures
            final(self).wf(),
            final(store).wf(),
            final(cache).wf(),
            r is Ok,
            match update@ {
                StateUpdateView::PeerUpdate { peer_id, info, timestamp } => r matches Ok(acc)
                    && timestamp == timestamp as i64 as int && applied_peer_update(
                    *old(self),
                    *final(self),
                    *old(store),
                    *final(store),
                    *old(cache),
                    *final(cache),
                    peer_id,
                    info,
                    timestamp as i64,
                    now,
                    acc,
                ),
                StateUpdateView::ReputationUpdate {
                    peer_id,
                    successful_interactions,
                    failed_interactions,
                    ..
                } => r matches Ok(acc) && applied_reputation_update(
                    *old(self),
                    *final(self),
                    *old(store),
                    *final(store),
                    *old(cache),
                    *final(cache),
                    peer_id,
                    successful_interactions,
                    failed_interactions,
                    acc,
                ),
                StateUpdateView::CreditUpdate {
                    creditor,
                    debtor,
                    credit_limit,
                    balance,
                    active,
                    timestamp,
                } => r matches Ok(acc) && timestamp == timestamp as i64 as int
                    && applied_credit_update(
                    *old(self),
                    *final(self),
                    *old(store),
                    *final(store),
                    *old(cache),
                    *final(cache),
                    creditor,
                    debtor,
                    credit_limit,
                    balance,
                    active,
                    timestamp as i64,
                    acc,
                ),
                StateUpdateView::KeyValueUpdate { key, value, version, .. } => r matches Ok(acc)
                    && applied_kv_update(
                    *old(self),
                    *final(self),
                    *old(store),
                    *final(store),
                    *old(cache),
                    *final(cache),
                    key,
                    value,
                    version,
                    acc,
                ),
            },
    {
        match update {
            StateUpdate::PeerUpdate { peer_id, info, timestamp } => {
                self.apply_peer_update(peer_id.as_str(), info, *timestamp, store, cache, now)
            },
            StateUpdate::ReputationUpdate {
                peer_id,
                successful_interactions,
                failed_interactions,
                ..
            } => {
                self.apply_reputation_update(
                    peer_id.as_str(),
                    *successful_interactions,
                    *failed_interactions,
                    store,
                    cache,
                )
            },
            StateUpdate::CreditUpdate {
                creditor,
                debtor,
                credit_limit,
                balance,
                active,
                timestamp,
            } => {
                self.apply_credit_update(
                    creditor.as_str(),
                    debtor.as_str(),
                    *credit_limit,
                    *balance,
                    *active,
                    *timestamp,
                    store,
                    cache,
                )
            },
            StateUpdate::KeyValueUpdate { key, value, version, .. } => {
                self.apply_kv_update(key.as_str(), value.as_slice(), *version, store, cache)
            },
        }
    }

    /// Apply an update received from the network, stamping store writes
    /// with the current wall-clock time.
    pub fn apply_update(
        &mut self,
        update: &StateUpdate,
        store: &mut Store,
        cache: &mut StateCache,
    ) -> (r: Result<bool, StateError>)
        requires
            old(self).wf(),
            old(store).wf(),
            old(cache).wf(),
        ensures
            final(self).wf(),
            final(store).wf(),
            final(cache).wf(),
            r is Ok,
            match update@ {
                StateUpdateView::PeerUpdate { peer_id, info, timestamp } => r matches Ok(acc)
                    && applied_peer_update_some_time(
                    *old(self),
                    *final(self),
                    *old(store),
                    *final(store),
                    *old(cache),
                    *final(cache),
                    peer_id,
                    info,
                    timestamp as i64,
                    acc,
                ),
                StateUpdateView::ReputationUpdate {
                    peer_id,
                    successful_interactions,
                    failed_interactions,
                    ..
                } => r matches Ok(acc) && applied_reputation_update(
                    *old(self),
                    *final(self),
                    *old(store),
                    *final(store),
                    *old(cache),
                    *final(cache),
                    peer_id,
                    successful_interactions,
                    failed_interactions,
                    acc,
                ),
                StateUpdateView::CreditUpdate {
                    creditor,
                    debtor,
                    credit_limit,
                    balance,
                    active,
                    timestamp,
                } => r matches Ok(acc) && applied_credit_update(
                    *old(self),
                    *final(self),
                    *old(store),
                    *final(store),
                    *old(cache),
                    *final(cache),
                    creditor,
                    debtor,
                    credit_limit,
                    balance,
                    active,
                    timestamp as i64,
                    acc,
                ),
                StateUpdateView::KeyValueUpdate { key, value, version, .. } => r matches Ok(acc)
                    && applied_kv_update(
                    *old(self),
                    *final(self),
                    *old(store),
                    *final(store),
                    *old(cache),
                    *final(cache),
                    key,
                    value,
                    version,
                    acc,
                ),
            },
    {
        let now = now_seconds();
        self.apply_update_at(update, store, cache, now)
    }
}

/// What a local peer update does when it is applied to the replica's own
/// state and then queued for publication: some intermediate resolver state
/// witnesses the application, and the queue gained exactly this update.
pub open spec fn applied_peer_update_then_queued(
    pre_sync: StateSync,
    post_sync: StateSync,
    pre_store: Store,
    post_store: Store,
    pre_cache: StateCache,
    post_cache: StateCache,
    peer_id: Seq<char>,
    info: PeerInfoUpdateView,
    ts: i64,
    now: i64,
    queued: StateUpdateView,
    accepted: bool,
) -> bool {
    exists|mid: StateSync|
        #![trigger applied_peer_update(
            pre_sync,
            mid,
            pre_store,
            post_store,
            pre_cache,
            post_cache,
            peer_id,
            info,
            ts,
            now,
            accepted,
        )]
        applied_peer_update(
            pre_sync,
            mid,
            pre_store,
            post_store,
            pre_cache,
            post_cache,
            peer_id,
            info,
            ts,
            now,
            accepted,
        ) && post_sync.pending() == mid.pending().push(queued) && post_sync.seen() == mid.seen()
            && post_sync.clock_view() == mid.clock_view() && post_sync.local_id() == mid.local_id()
}

/// What a local reputation update does when applied and then queued.
pub open spec fn applied_reputation_update_then_queued(
    pre_sync: StateSync,
    post_sync: StateSync,
    pre_store: Store,
    post_store: Store,
    pre_cache: StateCache,
    post_cache: StateCache,
    peer_id: Seq<char>,
    s: u64,
    f: u64,
    queued: StateUpdateView,
    accepted: bool,
) -> bool {
    exists|mid: StateSync|
        #![trigger applied_reputation_update(
            pre_sync,
            mid,
            pre_store,
            post_store,
            pre_cache,
            post_cache,
            peer_id,
            s,
            f,
            accepted,
        )]
        applied_reputation_update(
            pre_sync,
            mid,
            pre_store,
            post_store,
            pre_cache,
            post_cache,
            peer_id,
            s,
            f,
            accepted,
        ) && post_sync.pending() == mid.pending().push(queued) && post_sync.seen() == mid.seen()
            && post_sync.clock_view() == mid.clock_view() && post_sync.local_id() == mid.local_id()
}

/// What a local credit update does when applied and then queued.
pub open spec fn applied_credit_update_then_queued(
    pre_sync: StateSync,
    post_sync: StateSync,
    pre_store: Store,
    post_store: Store,
    pre_cache: StateCache,
    post_cache: StateCache,
    creditor: Seq<char>,
    debtor: Seq<char>,
    credit_limit: i64,
    balance: i64,
    active: bool,
    ts: i64,
    queued: StateUpdateView,
    accepted: bool,
) -> bool {
    exists|mid: StateSync|
        #![trigger applied_credit_update(
            pre_sync,
            mid,
            pre_store,
            post_store,
            pre_cache,
            post_cache,
            creditor,
            debtor,
            credit_limit,
            balance,
            active,
            ts,
            accepted,
        )]
        applied_credit_update(
            pre_sync,
            mid,
            pre_store,
            post_store,
            pre_cache,
            post_cache,
            creditor,
            debtor,
            credit_limit,
            balance,
            active,
            ts,
            accepted,
        ) && post_sync.pending() == mid.pending().push(queued) && post_sync.seen() == mid.seen()
            && post_sync.clock_view() == mid.clock_view() && post_sync.local_id() == mid.local_id()
}

/// What a local key/value update does when applied and then queued.
pub open spec fn applied_kv_update_then_queued(
    pre_sync: StateSync,
    post_sync: StateSync,
    pre_store: Store,
    post_store: Store,
    pre_cache: StateCache,
    post_cache: StateCache,
    key: Seq<char>,
    value: Seq<u8>,
    version: u64,
    queued: StateUpdateView,
    accepted: bool,
) -> bool {
    exists|mid: StateSync|
        #![trigger applied_kv_update(
            pre_sync,
            mid,
            pre_store,
            post_store,
            pre_cache,
            post_cache,
            key,
            value,
            version,
            accepted,
        )]
        applied_kv_update(
            pre_sync,
            mid,
            pre_store,
            post_store,
            pre_cache,
            post_cache,
            key,
            value,
            version,
            accepted,
        ) && post_sync.pending() == mid.pending().push(queued) && post_sync.seen() == mid.seen()
            && post_sync.clock_view() == mid.clock_view() && post_sync.local_id() == mid.local_id()
}

// ========== Laws of the merge rules ==========

/// The counters after applying a sequence of reputation updates in order.
pub open spec fn rep_fold(init: (u64, u64), us: Seq<(u64, u64)>) -> (u64, u64)
    decreases us.len(),
{
    if us.len() == 0 {
        init
    } else {
        rep_step(rep_fold(init, us.drop_last()), us.last())
    }
}

/// Reputation monotonicity: however many reputation updates are applied,
/// and in whatever order, the final counters are exactly the component-wise
/// maximum of the initial counters and every update — each is an upper
/// bound that is attained. The characterization mentions no order, so any
/// two delivery orders of the same updates agree.
pub proof fn lemma_reputation_monotonic(init: (u64, u64), us: Seq<(u64, u64)>)
    ensures
        init.0 <= rep_fold(init, us).0,
        init.1 <= rep_fold(init, us).1,
        forall|i: int|
            0 <= i < us.len() ==> (#[trigger] us[i]).0 <= rep_fold(init, us).0 && us[i].1
                <= rep_fold(init, us).1,
        rep_fold(init, us).0 == init.0 || exists|i: int|
            0 <= i < us.len() && (#[trigger] us[i]).0 == rep_fold(init, us).0,
        rep_fold(init, us).1 == init.1 || exists|i: int|
            0 <= i < us.len() && (#[trigger] us[i]).1 == rep_fold(init, us).1,
    decreases us.len(),
{
    if us.len() > 0 {
        lemma_reputation_monotonic(init, us.drop_last());
        let prev = rep_fold(init, us.drop_last());
        let cur = rep_fold(init, us);
        assert(cur == rep_step(prev, us.last()));
        assert forall|i: int|
            0 <= i < us.len() implies (#[trigger] us[i]).0 <= cur.0 && us[i].1 <= cur.1 by {
            if i < us.len() - 1 {
                assert(us.drop_last()[i] == us[i]);
            }
        }
        if cur.0 != init.0 {
            if cur.0 == us.last().0 {
                assert(us[us.len() - 1].0 == cur.0);
            } else {
                assert(cur.0 == prev.0);
                let w = choose|i: int|
                    0 <= i < us.drop_last().len() && (#[trigger] us.drop_last()[i]).0 == prev.0;
                assert(us[w].0 == cur.0);
            }
        }
        if cur.1 != init.1 {
            if cur.1 == us.last().1 {
                assert(us[us.len() - 1].1 == cur.1);
            } else {
                assert(cur.1 == prev.1);
                let w = choose|i: int|
                    0 <= i < us.drop_last().len() && (#[trigger] us.drop_last()[i]).1 == prev.1;
                assert(us[w].1 == cur.1);
            }
        }
    }
}

/// Last-writer-wins idempotence: once an update's timestamp has raced
/// against the last-seen map — whether it was accepted or not — applying
/// the very same update again is rejected, so the stored state is
/// unchanged by the second application.
pub proof fn lemma_lww_idempotent(seen: Map<Seq<char>, i64>, key: Seq<char>, ts: i64)
    ensures
        ({
            let first = lww_accepts(spec_seen_opt(seen, key), ts as int);
            let seen1 = if first {
                seen.insert(key, ts)
            } else {
                seen
            };
            !lww_accepts(spec_seen_opt(seen1, key), ts as int)
        }),
{
}

/// Last-writer-wins idempotence for peer updates, at the level of whole
/// replica states: applying the very same peer update twice leaves the
/// second application rejected, and the replica exactly as the first
/// application left it.
pub proof fn lemma_peer_update_idempotent(
    s0: StateSync,
    s1: StateSync,
    s2: StateSync,
    st0: Store,
    st1: Store,
    st2: Store,
    c0: StateCache,
    c1: StateCache,
    c2: StateCache,
    peer_id: Seq<char>,
    info: PeerInfoUpdateView,
    ts: i64,
    now1: i64,
    now2: i64,
    acc1: bool,
    acc2: bool,
)
    requires
        applied_peer_update(s0, s1, st0, st1, c0, c1, peer_id, info, ts, now1, acc1),
        applied_peer_update(s1, s2, st1, st2, c1, c2, peer_id, info, ts, now2, acc2),
    ensures
        !acc2,
        s2 == s1,
        st2 == st1,
        c2 == c1,
{
    let key = peer_key(peer_id);
    if acc1 {
        assert(s1.seen() == s0.seen().insert(key, ts));
        assert(s1.seen_opt(key) == Some(ts));
    } else {
        assert(s1 == s0);
    }
}

/// Last-writer-wins idempotence for credit updates, at the level of whole
/// replica states.
pub proof fn lemma_credit_update_idempotent(
    s0: StateSync,
    s1: StateSync,
    s2: StateSync,
    st0: Store,
    st1: Store,
    st2: Store,
    c0: StateCache,
    c1: StateCache,
    c2: StateCache,
    creditor: Seq<char>,
    debtor: Seq<char>,
    credit_limit: i64,
    balance: i64,
    active: bool,
    ts: i64,
    acc1: bool,
    acc2: bool,
)
    requires
        applied_credit_update(
            s0,
            s1,
            st0,
            st1,
            c0,
            c1,
            creditor,
            debtor,
            credit_limit,
            balance,
            active,
            ts,
            acc1,
        ),
        applied_credit_update(
            s1,
            s2,
            st1,
            st2,
            c1,
            c2,
            creditor,
            debtor,
            credit_limit,
            balance,
            active,
            ts,
            acc2,
        ),
    ensures
        !acc2,
        s2 == s1,
        st2 == st1,
        c2 == c1,
{
    let key = credit_key(creditor, debtor);
    if acc1 {
        assert(s1.seen() == s0.seen().insert(key, ts));
        assert(s1.seen_opt(key) == Some(ts));
    } else {
        assert(s1 == s0);
    }
}

/// The counters of a merged reputation row are one grow-only merge step.
pub proof fn lemma_merged_reputation_is_rep_step(prev: ReputationView, s: u64, f: u64)
    ensures
        (
            merged_reputation(prev, s, f).successful_interactions,
            merged_reputation(prev, s, f).failed_interactions,
        ) == rep_step((prev.successful_interactions, prev.failed_interactions), (s, f)),
{
}

/// The stored version after applying a sequence of key/value updates in
/// order.
pub open spec fn kv_fold(cur: Option<u64>, vs: Seq<u64>) -> Option<u64>
    decreases vs.len(),
{
    if vs.len() == 0 {
        cur
    } else {
        let prev = kv_fold(cur, vs.drop_last());
        if kv_accepts(prev, vs.last()) {
            Some(vs.last())
        } else {
            prev
        }
    }
}

/// Whether the update at position `i` is accepted when the sequence is
/// applied in order.
pub open spec fn kv_accepted_at(cur: Option<u64>, vs: Seq<u64>, i: int) -> bool {
    kv_accepts(kv_fold(cur, vs.take(i)), vs[i])
}

/// Ordering on stored versions: an absent entry is below everything.
pub open spec fn version_le(a: Option<u64>, b: Option<u64>) -> bool {
    match a {
        None => true,
        Some(x) => (b matches Some(y) && x <= y),
    }
}

/// The stored version never moves down as updates are applied in order.
proof fn lemma_kv_fold_monotone(cur: Option<u64>, vs: Seq<u64>, i: int, j: int)
    requires
        0 <= i <= j <= vs.len(),
    ensures
        version_le(kv_fold(cur, vs.take(i)), kv_fold(cur, vs.take(j))),
    decreases j - i,
{
    if i < j {
        lemma_kv_fold_monotone(cur, vs, i, j - 1);
        assert(vs.take(j).drop_last() =~= vs.take(j - 1));
        assert(kv_fold(cur, vs.take(j)) == (if kv_accepts(kv_fold(cur, vs.take(j - 1)), vs[j - 1]) {
            Some(vs[j - 1])
        } else {
            kv_fold(cur, vs.take(j - 1))
        }));
    }
}

/// Version monotonicity: after applying any sequence of key/value updates
/// for one key, the accepted versions form a strictly increasing sequence,
/// and the stored version is exactly the largest accepted version (or the
/// starting version when nothing was accepted).
pub proof fn lemma_version_monotonic(cur: Option<u64>, vs: Seq<u64>)
    ensures
        forall|i: int, j: int|
            0 <= i < j < vs.len() && #[trigger] kv_accepted_at(cur, vs, i)
                && #[trigger] kv_accepted_at(cur, vs, j) ==> vs[i] < vs[j],
        forall|i: int|
            0 <= i < vs.len() && #[trigger] kv_accepted_at(cur, vs, i) ==> (kv_fold(cur, vs)
                matches Some(m) && vs[i] <= m),
        (exists|i: int| 0 <= i < vs.len() && #[trigger] kv_accepted_at(cur, vs, i)) ==> exists|
            i: int,
        |
            0 <= i < vs.len() && #[trigger] kv_accepted_at(cur, vs, i) && kv_fold(cur, vs)
                == Some(vs[i]),
        !(exists|i: int| 0 <= i < vs.len() && #[trigger] kv_accepted_at(cur, vs, i)) ==> kv_fold(
            cur,
            vs,
        ) == cur,
    decreases vs.len(),
{
    if vs.len() > 0 {
        let n = vs.len() as int;
        lemma_version_monotonic(cur, vs.drop_last());
        assert(vs.take(n - 1) =~= vs.drop_last());
        assert(vs.take(n) =~= vs);
        let prev = kv_fold(cur, vs.drop_last());
        assert(kv_accepted_at(cur, vs, n - 1) == kv_accepts(prev, vs[n - 1]));
        assert forall|i: int|
            0 <= i < n - 1 implies #[trigger] kv_accepted_at(cur, vs, i) == kv_accepted_at(
            cur,
            vs.drop_last(),
            i,
        ) by {
            assert(vs.take(i) =~= vs.drop_last().take(i));
            assert(vs[i] == vs.drop_last()[i]);
        }
        // A version accepted earlier is bounded by what is stored before the
        // last step.
        assert forall|i: int|
            0 <= i < n - 1 && #[trigger] kv_accepted_at(cur, vs, i) implies (prev matches Some(
            m,
        ) && vs[i] <= m) by {
            assert(kv_accepted_at(cur, vs.drop_last(), i));
        }
        assert forall|i: int, j: int|
            0 <= i < j < n && #[trigger] kv_accepted_at(cur, vs, i) && #[trigger] kv_accepted_at(
            cur,
            vs,
            j,
        ) implies vs[i] < vs[j] by {
            if j < n - 1 {
                assert(kv_accepted_at(cur, vs.drop_last(), i));
                assert(kv_accepted_at(cur, vs.drop_last(), j));
            } else {
                assert(kv_accepted_at(cur, vs.drop_last(), i));
                assert(prev matches Some(m) && vs[i] <= m);
                assert(kv_accepts(prev, vs[n - 1]));
            }
        }
        let accepted_last = kv_accepts(prev, vs[n - 1]);
        if accepted_last {
            assert(kv_accepted_at(cur, vs, n - 1));
            assert(kv_fold(cur, vs) == Some(vs[n - 1]));
            assert(exists|i: int|
                0 <= i < vs.len() && #[trigger] kv_accepted_at(cur, vs, i) && kv_fold(cur, vs)
                    == Some(vs[i]));
        } else {
            assert(kv_fold(cur, vs) == prev);
            if exists|i: int|
                0 <= i < vs.drop_last().len() && #[trigger] kv_accepted_at(cur, vs.drop_last(), i) {
                let w = choose|i: int|
                    0 <= i < vs.drop_last().len() && #[trigger] kv_accepted_at(
                        cur,
                        vs.drop_last(),
                        i,
                    ) && kv_fold(cur, vs.drop_last()) == Some(vs.drop_last()[i]);
                assert(kv_accepted_at(cur, vs, w));
                assert(kv_fold(cur, vs) == Some(vs[w]));
                assert(exists|i: int|
                    0 <= i < vs.len() && #[trigger] kv_accepted_at(cur, vs, i) && kv_fold(cur, vs)
                        == Some(vs[i]));
            } else {
                assert(kv_fold(cur, vs.drop_last()) == cur);
                assert forall|i: int|
                    0 <= i < vs.len() implies !(#[trigger] kv_accepted_at(cur, vs, i)) by {
                    if i < n - 1 {
                        assert(!kv_accepted_at(cur, vs.drop_last(), i));
                    }
                }
            }
        }
    }
}

} // verus!
