//! The on-wire state updates that replicas gossip to one another, and their
//! ghost images.

use vstd::prelude::*;

verus! {

/// Ghost image of a [`PeerInfoUpdate`].
#[verifier::ext_equal]
pub struct PeerInfoUpdateView {
    pub public_key: Seq<char>,
    pub addresses: Seq<Seq<char>>,
    pub name: Option<Seq<char>>,
}

/// Peer information carried by a peer update.
#[derive(Debug)]
pub struct PeerInfoUpdate {
    pub public_key: String,
    pub addresses: Vec<String>,
    pub name: Option<String>,
}

impl View for PeerInfoUpdate {
    type V = PeerInfoUpdateView;

    open spec fn view(&self) -> PeerInfoUpdateView {
        PeerInfoUpdateView {
            public_key: self.public_key@,
            addresses: self.addresses.deep_view(),
            name: self.name.deep_view(),
        }
    }
}

impl Clone for PeerInfoUpdate {
    fn clone(&self) -> (res: Self)
        ensures
            res@ == self@,
    {
        let res = PeerInfoUpdate {
            public_key: self.public_key.clone(),
            addresses: self.addresses.clone(),
            name: self.name.clone(),
        };
        proof {
            assert(res.addresses.deep_view() =~= self.addresses.deep_view());
            assert(res.name.deep_view() =~= self.name.deep_view());
            assert(res@ =~= self@);
        }
        res
    }
}

/// Ghost image of a [`StateUpdate`].
#[verifier::ext_equal]
pub enum StateUpdateView {
    PeerUpdate { peer_id: Seq<char>, info: PeerInfoUpdateView, timestamp: int },
    ReputationUpdate {
        peer_id: Seq<char>,
        successful_interactions: u64,
        failed_interactions: u64,
        timestamp: int,
    },
    CreditUpdate {
        creditor: Seq<char>,
        debtor: Seq<char>,
        credit_limit: i64,
        balance: i64,
        active: bool,
        timestamp: int,
    },
    KeyValueUpdate { key: Seq<char>, value: Seq<u8>, version: u64, timestamp: int },
}

/// A state update that can be merged across the network: last-writer-wins
/// peer and credit records, grow-only reputation counters, and
/// version-numbered key/value blobs. Timestamps are UTC seconds.
#[derive(Debug)]
pub enum StateUpdate {
    /// Peer information update, merged last-writer-wins by timestamp.
    PeerUpdate { peer_id: String, info: PeerInfoUpdate, timestamp: i64 },
    /// Reputation update, merged as grow-only counters.
    ReputationUpdate {
        peer_id: String,
        successful_interactions: u64,
        failed_interactions: u64,
        timestamp: i64,
    },
    /// Credit relationship update, merged last-writer-wins by timestamp.
    CreditUpdate {
        creditor: String,
        debtor: String,
        credit_limit: i64,
        balance: i64,
        active: bool,
        timestamp: i64,
    },
    /// Generic key-value update, merged by version number.
    KeyValueUpdate { key: String, value: Vec<u8>, version: u64, timestamp: i64 },
}

impl View for StateUpdate {
    type V = StateUpdateView;

    open spec fn view(&self) -> StateUpdateView {
        match self {
            StateUpdate::PeerUpdate { peer_id, info, timestamp } => StateUpdateView::PeerUpdate {
                peer_id: peer_id@,
                info: info@,
                timestamp: *timestamp as int,
            },
            StateUpdate::ReputationUpdate {
                peer_id,
                successful_interactions,
                failed_interactions,
                timestamp,
            } => StateUpdateView::ReputationUpdate {
                peer_id: peer_id@,
                successful_interactions: *successful_interactions,
                failed_interactions: *failed_interactions,
                timestamp: *timestamp as int,
            },
            StateUpdate::CreditUpdate {
                creditor,
                debtor,
                credit_limit,
                balance,
                active,
                timestamp,
            } => StateUpdateView::CreditUpdate {
                creditor: creditor@,
                debtor: debtor@,
                credit_limit: *credit_limit,
                balance: *balance,
                active: *active,
                timestamp: *timestamp as int,
            },
            StateUpdate::KeyValueUpdate { key, value, version, timestamp } => {
                StateUpdateView::KeyValueUpdate {
                    key: key@,
                    value: value@,
                    version: *version,
                    timestamp: *timestamp as int,
                }
            },
        }
    }
}

impl Clone for StateUpdate {
    fn clone(&self) -> (res: Self)
        ensures
            res@ == self@,
    {
        match self {
            StateUpdate::PeerUpdate { peer_id, info, timestamp } => {
                let res = StateUpdate::PeerUpdate {
                    peer_id: peer_id.clone(),
                    info: info.clone(),
                    timestamp: *timestamp,
                };
                proof {
                    assert(res@ =~= self@);
                }
                res
            },
            StateUpdate::ReputationUpdate {
                peer_id,
                successful_interactions,
                failed_interactions,
                timestamp,
            } => {
                let res = StateUpdate::ReputationUpdate {
                    peer_id: peer_id.clone(),
                    successful_interactions: *successful_interactions,
                    failed_interactions: *failed_interactions,
                    timestamp: *timestamp,
                };
                proof {
                    assert(res@ =~= self@);
                }
                res
            },
            StateUpdate::CreditUpdate {
                creditor,
                debtor,
                credit_limit,
                balance,
                active,
                timestamp,
            } => {
                let res = StateUpdate::CreditUpdate {
                    creditor: creditor.clone(),
                    debtor: debtor.clone(),
                    credit_limit: *credit_limit,
                    balance: *balance,
                    active: *active,
                    timestamp: *timestamp,
                };
                proof {
                    assert(res@ =~= self@);
                }
                res
            },
            StateUpdate::KeyValueUpdate { key, value, version, timestamp } => {
                let res = StateUpdate::KeyValueUpdate {
                    key: key.clone(),
                    value: value.clone(),
                    version: *version,
                    timestamp: *timestamp,
                };
                proof {
                    assert(res.view() =~= self.view());
                }
                res
            },
        }
    }
}

} // verus!
