//! Core data types of the replica: peers, reputations, credit
//! relationships, messages, and versioned sync values, together with the
//! ghost views that contracts are stated over.

use vstd::prelude::*;
use vstd::string::StringExecFns;

use crate::outside::{new_uuid, now_seconds};

verus! {

/// Default reputation score, in thousandths (0.5).
pub const DEFAULT_SCORE_PERMILLE: u32 = 500;

/// Opaque printable identity of a peer.
#[derive(Debug)]
pub struct PeerId(pub String);

impl View for PeerId {
    type V = Seq<char>;

    open spec fn view(&self) -> Seq<char> {
        self.0@
    }
}

impl PeerId {
    pub fn as_str(&self) -> (r: &str)
        ensures
            r@ == self@,
    {
        self.0.as_str()
    }
}

impl Clone for PeerId {
    fn clone(&self) -> (res: Self)
        ensures
            res@ == self@,
    {
        PeerId(self.0.clone())
    }
}

/// Ghost image of a [`PeerInfo`].
#[verifier::ext_equal]
pub struct PeerInfoView {
    pub id: Seq<char>,
    pub public_key: Seq<char>,
    pub addresses: Seq<Seq<char>>,
    pub first_seen: int,
    pub last_seen: int,
    pub name: Option<Seq<char>>,
}

/// A peer record: identity, encoded public key, known transport addresses,
/// optional display name, and first/last observation times (UTC seconds).
#[derive(Debug)]
pub struct PeerInfo {
    pub id: PeerId,
    pub public_key: String,
    pub addresses: Vec<String>,
    pub first_seen: i64,
    pub last_seen: i64,
    pub name: Option<String>,
}

impl View for PeerInfo {
    type V = PeerInfoView;

    open spec fn view(&self) -> PeerInfoView {
        PeerInfoView {
            id: self.id@,
            public_key: self.public_key@,
            addresses: self.addresses.deep_view(),
            first_seen: self.first_seen as int,
            last_seen: self.last_seen as int,
            name: self.name.deep_view(),
        }
    }
}

impl PeerInfoView {
    /// A peer record never claims to have been seen before it first appeared.
    pub open spec fn wf(self) -> bool {
        self.first_seen <= self.last_seen
    }
}

impl Clone for PeerInfo {
    fn clone(&self) -> (res: Self)
        ensures
            res@ == self@,
    {
        let res = PeerInfo {
            id: self.id.clone(),
            public_key: self.public_key.clone(),
            addresses: self.addresses.clone(),
            first_seen: self.first_seen,
            last_seen: self.last_seen,
            name: self.name.clone(),
        };
        proof {
            assert(res.addresses.deep_view() =~= self.addresses.deep_view());
            assert(res.name.deep_view() =~= self.name.deep_view());
            assert(res@ =~= self@);
        }
        res
    }
}

/// A point-in-time record of a peer's score, in thousandths.
#[derive(Debug, Clone, Copy, PartialEq, Eq, Structural)]
pub struct ReputationSnapshot {
    pub score_permille: u32,
    pub timestamp: i64,
}

/// Ghost image of a [`Reputation`].
#[verifier::ext_equal]
pub struct ReputationView {
    pub score_permille: u32,
    pub successful_interactions: u64,
    pub failed_interactions: u64,
    pub last_updated: int,
    pub history: Seq<ReputationSnapshot>,
}

/// Reputation attached to a peer: two grow-only interaction counters, a
/// derived score in thousandths, and an append-only history of snapshots.
#[derive(Debug)]
pub struct Reputation {
    pub score_permille: u32,
    pub successful_interactions: u64,
    pub failed_interactions: u64,
    pub last_updated: i64,
    pub history: Vec<ReputationSnapshot>,
}

/// The score that a pair of interaction counters derives to, in
/// thousandths: `successful / (successful + failed)`, truncated, when the
/// denominator is positive.
pub open spec fn spec_score_permille(successful: u64, failed: u64) -> int {
    (successful * 1000) / (successful + failed)
}

impl View for Reputation {
    type V = ReputationView;

    open spec fn view(&self) -> ReputationView {
        ReputationView {
            score_permille: self.score_permille,
            successful_interactions: self.successful_interactions,
            failed_interactions: self.failed_interactions,
            last_updated: self.last_updated as int,
            history: self.history@,
        }
    }
}

impl ReputationView {
    pub open spec fn wf(self) -> bool {
        self.score_permille <= 1000
    }
}

impl Clone for Reputation {
    fn clone(&self) -> (res: Self)
        ensures
            res@ == self@,
    {
        let res = Reputation {
            score_permille: self.score_permille,
            successful_interactions: self.successful_interactions,
            failed_interactions: self.failed_interactions,
            last_updated: self.last_updated,
            history: self.history.clone(),
        };
        proof {
            assert(res.history@ =~= self.history@);
            assert(res@ =~= self@);
        }
        res
    }
}

impl Reputation {
    /// A reputation with the given starting score and zeroed counters.
    pub fn new(score_permille: u32) -> (r: Self)
        requires
            score_permille <= 1000,
        ensures
            r@.score_permille == score_permille,
            r@.successful_interactions == 0,
            r@.failed_interactions == 0,
            r@.last_updated == 0,
            r@.history == Seq::<ReputationSnapshot>::empty(),
            r@.wf(),
    {
        let r = Reputation {
            score_permille,
            successful_interactions: 0,
            failed_interactions: 0,
            last_updated: 0,
            history: Vec::new(),
        };
        proof {
            assert(r.history@ =~= Seq::<ReputationSnapshot>::empty());
        }
        r
    }

    /// Recompute the stored score from the counters; when both counters are
    /// zero the stored score is left as it is.
    pub fn recompute_score(&mut self)
        ensures
            final(self)@ == (ReputationView {
                score_permille: final(self)@.score_permille,
                ..old(self)@
            }),
            old(self).successful_interactions + old(self).failed_interactions > 0
                ==> final(self)@.score_permille == spec_score_permille(
                    old(self).successful_interactions,
                    old(self).failed_interactions,
                ),
            old(self).successful_interactions + old(self).failed_interactions == 0
                ==> final(self)@.score_permille == old(self)@.score_permille,
            old(self).successful_interactions + old(self).failed_interactions > 0
                ==> final(self)@.score_permille <= 1000,
            old(self)@.wf() ==> final(self)@.wf(),
    {
        let s = self.successful_interactions;
        let f = self.failed_interactions;
        let total: u128 = s as u128 + f as u128;
        if total > 0 {
            let scaled: u128 = (s as u128) * 1000;
            let q: u128 = scaled / total;
            proof {
                assert(q <= 1000) by (nonlinear_arith)
                    requires
                        total > 0,
                        s as u128 <= total,
                        scaled == (s as u128) * 1000,
                        q == scaled / total,
                ;
                assert(q == spec_score_permille(s, f)) by (nonlinear_arith)
                    requires
                        total == s + f,
                        total > 0,
                        scaled == (s as u128) * 1000,
                        q == scaled / total,
                ;
            }
            self.score_permille = q as u32;
        }
    }
}

impl Default for Reputation {
    /// The neutral reputation: score one half, no recorded interactions.
    fn default() -> (r: Self)
        ensures
            r@.score_permille == DEFAULT_SCORE_PERMILLE,
            r@.successful_interactions == 0,
            r@.failed_interactions == 0,
            r@.last_updated == 0,
            r@.history == Seq::<ReputationSnapshot>::empty(),
            r@.wf(),
    {
        Reputation::new(DEFAULT_SCORE_PERMILLE)
    }
}

/// Ghost image of a [`CreditRelationship`].
#[verifier::ext_equal]
pub struct CreditRelationshipView {
    pub creditor: Seq<char>,
    pub debtor: Seq<char>,
    pub credit_limit: i64,
    pub balance: i64,
    pub active: bool,
    pub established: int,
    pub last_transaction: int,
}

/// A mutual-credit line from `creditor` to `debtor`. Amounts are integral
/// minor units; a positive balance means the debtor owes the creditor.
#[derive(Debug)]
pub struct CreditRelationship {
    pub creditor: PeerId,
    pub debtor: PeerId,
    pub credit_limit: i64,
    pub balance: i64,
    pub active: bool,
    pub established: i64,
    pub last_transaction: i64,
}

impl View for CreditRelationship {
    type V = CreditRelationshipView;

    open spec fn view(&self) -> CreditRelationshipView {
        CreditRelationshipView {
            creditor: self.creditor@,
            debtor: self.debtor@,
            credit_limit: self.credit_limit,
            balance: self.balance,
            active: self.active,
            established: self.established as int,
            last_transaction: self.last_transaction as int,
        }
    }
}

impl CreditRelationshipView {
    pub open spec fn wf(self) -> bool {
        &&& self.credit_limit >= 0
        &&& self.established <= self.last_transaction
    }
}

impl Clone for CreditRelationship {
    fn clone(&self) -> (res: Self)
        ensures
            res@ == self@,
    {
        let res = CreditRelationship {
            creditor: self.creditor.clone(),
            debtor: self.debtor.clone(),
            credit_limit: self.credit_limit,
            balance: self.balance,
            active: self.active,
            established: self.established,
            last_transaction: self.last_transaction,
        };
        proof {
            assert(res@ =~= self@);
        }
        res
    }
}

impl CreditRelationship {
    /// A fresh, active credit line with the given limit and zero balance,
    /// established at the current wall-clock time.
    pub fn new(creditor: PeerId, debtor: PeerId, credit_limit: i64) -> (r: Self)
        requires
            credit_limit >= 0,
        ensures
            r@.creditor == creditor@,
            r@.debtor == debtor@,
            r@.credit_limit == credit_limit,
            r@.balance == 0,
            r@.active,
            r@.established == r@.last_transaction,
            r@.wf(),
    {
        let now = now_seconds();
        CreditRelationship::new_at(creditor, debtor, credit_limit, now)
    }

    /// A fresh, active credit line with the given limit, zero balance, and
    /// both timestamps set to `now`.
    pub fn new_at(creditor: PeerId, debtor: PeerId, credit_limit: i64, now: i64) -> (r: Self)
        requires
            credit_limit >= 0,
        ensures
            r@ == (CreditRelationshipView {
                creditor: creditor@,
                debtor: debtor@,
                credit_limit: credit_limit,
                balance: 0,
                active: true,
                established: now as int,
                last_transaction: now as int,
            }),
            r@.wf(),
    {
        CreditRelationship {
            creditor,
            debtor,
            credit_limit,
            balance: 0,
            active: true,
            established: now,
            last_transaction: now,
        }
    }
}

/// The closed set of message families.
#[derive(Debug, Clone, Copy, PartialEq, Eq, Structural)]
pub enum MessageType {
    Discovery,
    Content,
    Reputation,
    Credit,
    Governance,
    Direct,
    System,
}

/// Ghost image of a [`Message`].
#[verifier::ext_equal]
pub struct MessageView {
    pub id: u128,
    pub message_type: MessageType,
    pub sender: Seq<char>,
    pub recipient: Option<Seq<char>>,
    pub payload: Seq<u8>,
    pub timestamp: int,
    pub signature: Option<Seq<u8>>,
}

/// A protocol message: 128-bit identity, family tag, sender (and optional
/// recipient) peer ids, opaque payload, optional signature. Immutable once
/// stored.
#[derive(Debug)]
pub struct Message {
    pub id: u128,
    pub message_type: MessageType,
    pub sender: PeerId,
    pub recipient: Option<PeerId>,
    pub payload: Vec<u8>,
    pub timestamp: i64,
    pub signature: Option<Vec<u8>>,
}

impl View for Message {
    type V = MessageView;

    open spec fn view(&self) -> MessageView {
        MessageView {
            id: self.id,
            message_type: self.message_type,
            sender: self.sender@,
            recipient: match self.recipient {
                Some(ref p) => Some(p@),
                None => None,
            },
            payload: self.payload@,
            timestamp: self.timestamp as int,
            signature: match self.signature {
                Some(ref s) => Some(s@),
                None => None,
            },
        }
    }
}

impl Clone for Message {
    fn clone(&self) -> (res: Self)
        ensures
            res@ == self@,
    {
        let recipient = match &self.recipient {
            Some(p) => Some(p.clone()),
            None => None,
        };
        let signature = match &self.signature {
            Some(s) => Some(s.clone()),
            None => None,
        };
        let res = Message {
            id: self.id,
            message_type: self.message_type,
            sender: self.sender.clone(),
            recipient,
            payload: self.payload.clone(),
            timestamp: self.timestamp,
            signature,
        };
        proof {
            assert(res.payload@ =~= self.payload@);
            match (&res.signature, &self.signature) {
                (Some(a), Some(b)) => {
                    assert(a@ =~= b@);
                },
                _ => {},
            }
            assert(res@ =~= self@);
        }
        res
    }
}

impl Message {
    /// A message with a fresh random identifier, stamped with the current
    /// wall-clock time.
    pub fn new(message_type: MessageType, sender: PeerId, payload: Vec<u8>) -> (r: Self)
        ensures
            r@.message_type == message_type,
            r@.sender == sender@,
            r@.recipient is None,
            r@.payload == payload@,
            r@.signature is None,
    {
        let id = new_uuid();
        let now = now_seconds();
        Message::new_at(message_type, sender, payload, id, now)
    }

    /// A message with every field supplied by the caller.
    pub fn new_at(
        message_type: MessageType,
        sender: PeerId,
        payload: Vec<u8>,
        id: u128,
        timestamp: i64,
    ) -> (r: Self)
        ensures
            r@ == (MessageView {
                id: id,
                message_type: message_type,
                sender: sender@,
                recipient: None,
                payload: payload@,
                timestamp: timestamp as int,
                signature: None,
            }),
    {
        Message {
            id,
            message_type,
            sender,
            recipient: None,
            payload,
            timestamp,
            signature: None,
        }
    }
}

/// Ghost image of a [`SyncValue`].
#[verifier::ext_equal]
pub struct SyncValueView {
    pub key: Seq<char>,
    pub value: Seq<u8>,
    pub version: u64,
}

/// A versioned key/value entry of the sync table.
#[derive(Debug)]
pub struct SyncValue {
    pub key: String,
    pub value: Vec<u8>,
    pub version: u64,
}

impl View for SyncValue {
    type V = SyncValueView;

    open spec fn view(&self) -> SyncValueView {
        SyncValueView { key: self.key@, value: self.value@, version: self.version }
    }
}

impl Clone for SyncValue {
    fn clone(&self) -> (res: Self)
        ensures
            res@ == self@,
    {
        let res = SyncValue {
            key: self.key.clone(),
            value: self.value.clone(),
            version: self.version,
        };
        proof {
            assert(res.value@ =~= self.value@);
            assert(res@ =~= self@);
        }
        res
    }
}

/// Ghost image of a [`CreditTransaction`].
#[verifier::ext_equal]
pub struct CreditTransactionView {
    pub id: u128,
    pub relationship_id: Seq<char>,
    pub amount: i64,
    pub balance_after: i64,
    pub description: Option<Seq<char>>,
    pub timestamp: int,
}

/// One entry of the append-only credit transaction log.
#[derive(Debug)]
pub struct CreditTransaction {
    pub id: u128,
    pub relationship_id: String,
    pub amount: i64,
    pub balance_after: i64,
    pub description: Option<String>,
    pub timestamp: i64,
}

impl View for CreditTransaction {
    type V = CreditTransactionView;

    open spec fn view(&self) -> CreditTransactionView {
        CreditTransactionView {
            id: self.id,
            relationship_id: self.relationship_id@,
            amount: self.amount,
            balance_after: self.balance_after,
            description: self.description.deep_view(),
            timestamp: self.timestamp as int,
        }
    }
}

impl Clone for CreditTransaction {
    fn clone(&self) -> (res: Self)
        ensures
            res@ == self@,
    {
        let res = CreditTransaction {
            id: self.id,
            relationship_id: self.relationship_id.clone(),
            amount: self.amount,
            balance_after: self.balance_after,
            description: match &self.description {
                Some(d) => Some(d.clone()),
                None => None,
            },
            timestamp: self.timestamp,
        };
        proof {
            assert(res@ =~= self@);
        }
        res
    }
}

/// The derived single-string identity of a credit relationship.
pub open spec fn spec_credit_id(c: Seq<char>, d: Seq<char>) -> Seq<char> {
    c + "_"@ + d
}

/// Build the derived identity `"{creditor}_{debtor}"` of a credit
/// relationship.
pub fn relationship_id(creditor: &str, debtor: &str) -> (r: String)
    ensures
        r@ == spec_credit_id(creditor@, debtor@),
{
    let mut s = creditor.to_owned();
    s.append("_");
    s.append(debtor);
    proof {
        assert(s@ =~= spec_credit_id(creditor@, debtor@));
    }
    s
}

/// The error taxonomy of the replica.
#[derive(Debug)]
pub enum StateError {
    /// The backing database could not be reached or opened.
    Connection(String),
    /// Schema bootstrap failed.
    Migration(String),
    /// A targeted update addressed a row that does not exist.
    NotFound { entity: String, id: String },
    /// A value could not be encoded for storage or transmission.
    Serialization(String),
    /// A stored or received value could not be decoded.
    Deserialization(String),
    /// The store rejected a write.
    Integrity(String),
}

} // verus!
