//! The snapshot of consensus state kept for crash recovery, and the errors
//! of the stores that keep it.
use vstd::prelude::*;
use crate::ids::EventId;
use crate::ids::NodeId;

verus! {

/// Errors of consensus state stores.
#[derive(Debug)]
pub enum ConsensusStoreError {
    /// Reading or writing the database failed.
    Database(String),
    /// Encoding or decoding the snapshot failed.
    Serialization(String),
    /// The snapshot has an unsupported version.
    InvalidVersion(u32),
}

/// The message of a consensus store error.
pub open spec fn store_error_text(e: ConsensusStoreError) -> Seq<char> {
    match e {
        ConsensusStoreError::Database(m) => "database error: "@ + m@,
        ConsensusStoreError::Serialization(m) => "serialization error: "@ + m@,
        ConsensusStoreError::InvalidVersion(_) => "invalid state version"@,
    }
}

impl ConsensusStoreError {
    /// A human-readable description.
    pub fn message(&self) -> (r: String)
        ensures
            r@ == store_error_text(*self),
    {
        match self {
            ConsensusStoreError::Database(m) => {
                let mut s = String::from_str("database error: ");
                s.append(m.as_str());
                s
            },
            ConsensusStoreError::Serialization(m) => {
                let mut s = String::from_str("serialization error: ");
                s.append(m.as_str());
                s
            },
            ConsensusStoreError::InvalidVersion(_) => String::from_str("invalid state version"),
        }
    }
}

/// A snapshot of the consensus engine, enough to resume after a restart.
/// Version 1 lacks the first-seen table; version 2 carries it.
pub struct ConsensusState {
    /// The current round.
    pub current_round: u64,
    /// The round seed.
    pub round_seed: [u8; 32],
    /// Number of committed events.
    pub committed_events: u64,
    /// The last finalized round.
    pub last_finalized_round: u64,
    /// The known validators.
    pub active_validators: Vec<NodeId>,
    /// The highest sequence tracked per validator.
    pub equivocation_tracking: Vec<(NodeId, u64)>,
    /// The first event seen per creator and sequence.
    pub first_event_for_sequence: Vec<((NodeId, u64), EventId)>,
    /// The snapshot format version.
    pub version: u32,
}

/// Storage for consensus snapshots. Implementations decide where the
/// snapshot lives; nothing is promised of what they return.
pub trait ConsensusStore: Sized {
    /// Save a snapshot, replacing any earlier one.
    fn save_state(&mut self, state: &ConsensusState) -> Result<(), ConsensusStoreError>;

    /// The last saved snapshot, `None` when none was saved.
    fn load_state(&self) -> Result<Option<ConsensusState>, ConsensusStoreError>;

    /// Save just the current round.
    fn save_round(&mut self, round: u64) -> Result<(), ConsensusStoreError>;

    /// The last saved round, zero when none was saved.
    fn load_round(&self) -> Result<u64, ConsensusStoreError>;
}

} // verus!
