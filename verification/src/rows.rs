//! Decoding of raw database rows into replica types.
//!
//! The persistence layer hands rows back as plain columns: strings, byte
//! blobs, and integers. JSON-encoded columns are validated here — a decode
//! failure is a `Deserialization` error, never a silent drop; a legacy
//! public-key column holding raw bytes is re-encoded to printable text; an
//! out-of-range timestamp falls back to the current time; an unknown
//! message family tag falls back to the system family.

use vstd::prelude::*;

use crate::outside::{
    base58_encode, base58_text, parse_history_pairs, parse_string_list, parse_uuid,
    parsed_history_pairs, parsed_string_list, parsed_uuid, timestamp_representable,
    ts_in_datetime_range,
};
use crate::types::{
    CreditRelationship, CreditRelationshipView, Message, MessageType, MessageView, PeerId,
    PeerInfo, PeerInfoView, Reputation, ReputationSnapshot, ReputationView, StateError,
};

verus! {

/// A public-key column: printable text, or a raw legacy blob.
#[derive(Debug)]
pub enum KeyColumn {
    Text(String),
    Blob(Vec<u8>),
}

/// The printable key a column decodes to: text is kept, a legacy blob is
/// re-encoded to base58.
pub open spec fn spec_key_text(col: KeyColumn) -> Seq<char> {
    match col {
        KeyColumn::Text(s) => s@,
        KeyColumn::Blob(b) => base58_text(b@),
    }
}

/// A timestamp column survives when chrono can represent it; anything else
/// falls back to the present.
pub open spec fn spec_timestamp_or_now(ts: i64, now: i64) -> int {
    if ts_in_datetime_range(ts) {
        ts as int
    } else {
        now as int
    }
}

/// The message family a tag decodes to; an unknown tag is the system
/// family.
pub open spec fn spec_message_type_of(s: Seq<char>) -> MessageType {
    if s == "Discovery"@ {
        MessageType::Discovery
    } else if s == "Content"@ {
        MessageType::Content
    } else if s == "Reputation"@ {
        MessageType::Reputation
    } else if s == "Credit"@ {
        MessageType::Credit
    } else if s == "Governance"@ {
        MessageType::Governance
    } else if s == "Direct"@ {
        MessageType::Direct
    } else {
        MessageType::System
    }
}

/// The tag a message family is stored under.
pub open spec fn spec_message_type_tag(t: MessageType) -> Seq<char> {
    match t {
        MessageType::Discovery => "Discovery"@,
        MessageType::Content => "Content"@,
        MessageType::Reputation => "Reputation"@,
        MessageType::Credit => "Credit"@,
        MessageType::Governance => "Governance"@,
        MessageType::Direct => "Direct"@,
        MessageType::System => "System"@,
    }
}

/// Decode a message family tag; unknown tags decode to the system family,
/// so every row decodes.
pub fn message_type_of(s: &str) -> (r: MessageType)
    ensures
        r == spec_message_type_of(s@),
{
    let owned = s.to_owned();
    if owned == "Discovery".to_owned() {
        MessageType::Discovery
    } else if owned == "Content".to_owned() {
        MessageType::Content
    } else if owned == "Reputation".to_owned() {
        MessageType::Reputation
    } else if owned == "Credit".to_owned() {
        MessageType::Credit
    } else if owned == "Governance".to_owned() {
        MessageType::Governance
    } else if owned == "Direct".to_owned() {
        MessageType::Direct
    } else {
        MessageType::System
    }
}

/// The tag a message family is stored under.
pub fn message_type_tag(t: &MessageType) -> (r: String)
    ensures
        r@ == spec_message_type_tag(*t),
{
    match t {
        MessageType::Discovery => "Discovery".to_owned(),
        MessageType::Content => "Content".to_owned(),
        MessageType::Reputation => "Reputation".to_owned(),
        MessageType::Credit => "Credit".to_owned(),
        MessageType::Governance => "Governance".to_owned(),
        MessageType::Direct => "Direct".to_owned(),
        MessageType::System => "System".to_owned(),
    }
}

/// A raw peer row, as the persistence layer returns it.
#[derive(Debug)]
pub struct PeerRow {
    pub peer_id: String,
    pub public_key: KeyColumn,
    pub display_name: Option<String>,
    pub addresses_json: String,
    pub score_permille: u32,
    pub successful_interactions: u64,
    pub failed_interactions: u64,
    pub reputation_history_json: String,
    pub first_seen: i64,
    pub last_seen: i64,
}

/// Decode the peer record half of a raw peer row. The addresses column
/// must be a JSON array of strings; a legacy blob key is re-encoded; a
/// timestamp outside chrono's range falls back to `now`.
pub fn row_to_peer_info(row: PeerRow, now: i64) -> (r: Result<PeerInfo, StateError>)
    ensures
        match parsed_string_list(row.addresses_json@) {
            Some(addrs) => r matches Ok(info) && info@ == (PeerInfoView {
                id: row.peer_id@,
                public_key: spec_key_text(row.public_key),
                addresses: addrs,
                first_seen: spec_timestamp_or_now(row.first_seen, now),
                last_seen: spec_timestamp_or_now(row.last_seen, now),
                name: row.display_name.deep_view(),
            }),
            None => r matches Err(StateError::Deserialization(_)),
        },
{
    let addresses = match parse_string_list(row.addresses_json.as_str()) {
        Some(v) => v,
        None => {
            return Err(StateError::Deserialization(row.addresses_json));
        },
    };
    let public_key = match row.public_key {
        KeyColumn::Text(s) => s,
        KeyColumn::Blob(b) => base58_encode(b.as_slice()),
    };
    let first_seen = if timestamp_representable(row.first_seen) {
        row.first_seen
    } else {
        now
    };
    let last_seen = if timestamp_representable(row.last_seen) {
        row.last_seen
    } else {
        now
    };
    let info = PeerInfo {
        id: PeerId(row.peer_id),
        public_key,
        addresses,
        first_seen,
        last_seen,
        name: row.display_name,
    };
    Ok(info)
}

/// Decode the reputation half of a raw peer row. The history column must
/// be a JSON array of (score, timestamp) pairs; a stored score above one is
/// clamped back into range.
pub fn row_to_reputation(row: &PeerRow, now: i64) -> (r: Result<Reputation, StateError>)
    ensures
        match parsed_history_pairs(row.reputation_history_json@) {
            Some(pairs) => r matches Ok(rep) && rep@ == (ReputationView {
                score_permille: if row.score_permille <= 1000 {
                    row.score_permille
                } else {
                    1000
                },
                successful_interactions: row.successful_interactions,
                failed_interactions: row.failed_interactions,
                last_updated: now as int,
                history: pairs.map_values(
                    |p: (u32, i64)| ReputationSnapshot { score_permille: p.0, timestamp: p.1 },
                ),
            }) && rep@.wf(),
            None => r matches Err(StateError::Deserialization(_)),
        },
{
    let pairs = match parse_history_pairs(row.reputation_history_json.as_str()) {
        Some(v) => v,
        None => {
            return Err(StateError::Deserialization(row.reputation_history_json.clone()));
        },
    };
    let mut history: Vec<ReputationSnapshot> = Vec::new();
    let n = pairs.len();
    let mut i: usize = 0;
    while i < n
        invariant
            n == pairs@.len(),
            i <= n,
            history@ == pairs@.take(i as int).map_values(
                |p: (u32, i64)| ReputationSnapshot { score_permille: p.0, timestamp: p.1 },
            ),
        decreases n - i,
    {
        history.push(
            ReputationSnapshot { score_permille: pairs[i].0, timestamp: pairs[i].1 },
        );
        proof {
            assert(history@ =~= pairs@.take(i + 1).map_values(
                |p: (u32, i64)| ReputationSnapshot { score_permille: p.0, timestamp: p.1 },
            ));
        }
        i = i + 1;
    }
    proof {
        assert(pairs@.take(n as int) =~= pairs@);
    }
    let score = if row.score_permille <= 1000 {
        row.score_permille
    } else {
        1000
    };
    Ok(
        Reputation {
            score_permille: score,
            successful_interactions: row.successful_interactions,
            failed_interactions: row.failed_interactions,
            last_updated: now,
            history,
        },
    )
}

/// A raw message row, as the persistence layer returns it.
#[derive(Debug)]
pub struct MessageRow {
    pub id: String,
    pub message_type: String,
    pub sender_peer_id: String,
    pub recipient_peer_id: Option<String>,
    pub payload: Vec<u8>,
    pub signature: Option<Vec<u8>>,
    pub timestamp: i64,
}

/// Decode a raw message row. The id column must parse as a UUID; an
/// unknown family tag falls back to the system family; a timestamp outside
/// chrono's range falls back to `now`.
pub fn row_to_message(row: MessageRow, now: i64) -> (r: Result<Message, StateError>)
    ensures
        match parsed_uuid(row.id@) {
            Some(id) => r matches Ok(m) && m@ == (MessageView {
                id: id,
                message_type: spec_message_type_of(row.message_type@),
                sender: row.sender_peer_id@,
                recipient: row.recipient_peer_id.deep_view(),
                payload: row.payload@,
                timestamp: spec_timestamp_or_now(row.timestamp, now),
                signature: match row.signature {
                    Some(s) => Some(s@),
                    None => None,
                },
            }),
            None => r matches Err(StateError::Deserialization(_)),
        },
{
    let id = match parse_uuid(row.id.as_str()) {
        Some(u) => u,
        None => {
            return Err(StateError::Deserialization(row.id));
        },
    };
    let message_type = message_type_of(row.message_type.as_str());
    let timestamp = if timestamp_representable(row.timestamp) {
        row.timestamp
    } else {
        now
    };
    let m = Message {
        id,
        message_type,
        sender: PeerId(row.sender_peer_id),
        recipient: match row.recipient_peer_id {
            Some(s) => Some(PeerId(s)),
            None => None,
        },
        payload: row.payload,
        timestamp,
        signature: row.signature,
    };
    proof {
        assert(m@.recipient =~= (match m.recipient {
            Some(ref p) => Some(p@),
            None => None,
        }));
    }
    Ok(m)
}

/// A raw credit relationship row, as the persistence layer returns it.
#[derive(Debug)]
pub struct CreditRow {
    pub creditor_peer_id: String,
    pub debtor_peer_id: String,
    pub credit_limit: i64,
    pub balance: i64,
    pub active: i32,
    pub established: i64,
    pub last_transaction: i64,
}

/// Decode a raw credit relationship row: any nonzero flag is active, and a
/// timestamp outside chrono's range falls back to `now`. Every row decodes.
pub fn row_to_credit_relationship(row: CreditRow, now: i64) -> (r: Result<
    CreditRelationship,
    StateError,
>)
    ensures
        r matches Ok(c) && c@ == (CreditRelationshipView {
            creditor: row.creditor_peer_id@,
            debtor: row.debtor_peer_id@,
            credit_limit: row.credit_limit,
            balance: row.balance,
            active: row.active != 0,
            established: spec_timestamp_or_now(row.established, now),
            last_transaction: spec_timestamp_or_now(row.last_transaction, now),
        }),
{
    let established = if timestamp_representable(row.established) {
        row.established
    } else {
        now
    };
    let last_transaction = if timestamp_representable(row.last_transaction) {
        row.last_transaction
    } else {
        now
    };
    Ok(
        CreditRelationship {
            creditor: PeerId(row.creditor_peer_id),
            debtor: PeerId(row.debtor_peer_id),
            credit_limit: row.credit_limit,
            balance: row.balance,
            active: row.active != 0,
            established,
            last_transaction,
        },
    )
}

} // verus!
