//! The work of an event-validation worker.
//!
//! A worker checks an event's hash and, when it holds, records the event as
//! pending in the sharded consensus state unless it is already there. The
//! pool of worker threads that hands out this work lives with the
//! application; this module holds what each task computes.
use vstd::prelude::*;
use crate::ids::EventId;
use crate::event::Event;
use crate::event::event_hash;
use crate::consensus::ConsensusState;
use crate::sharded_state::ShardedConsensusState;

verus! {

/// A task for a validation worker.
pub enum ValidationTask {
    /// Validate an event and record it.
    ValidateEvent(Box<Event>),
    /// Stop the worker.
    Shutdown,
}

/// The outcome of validating one event.
#[derive(Debug, Clone)]
pub struct ValidationResult {
    /// The event's id.
    pub event_id: EventId,
    /// Whether the event passed validation.
    pub valid: bool,
    /// Why validation failed, or a note on a duplicate.
    pub error: Option<String>,
}

/// Check the hash of `event` and record it as pending in `state` unless it
/// is already recorded.
///
/// An event whose id is not the hash of its content is invalid and leaves
/// the state unchanged; a valid event already recorded is reported with the
/// note "already processed".
pub fn validate_and_insert(event: &Event, state: &mut ShardedConsensusState) -> (r: ValidationResult)
    requires
        old(state).wf(),
    ensures
        final(state).wf(),
        r.event_id == event.id,
        r.valid == (event.payload@.len() <= u64::MAX && event.id == event_hash(event@)),
        !r.valid ==> final(state).states() == old(state).states() && r.error is Some,
        r.valid ==> {
            &&& r.error is Some == old(state).states().contains_key(event.id)
            &&& final(state).states() == if old(state).states().contains_key(event.id) {
                old(state).states()
            } else {
                old(state).states().insert(event.id, ConsensusState::Pending)
            }
        },
        final(state).rounds() == old(state).rounds(),
        final(state).fame() == old(state).fame(),
        final(state).committed() == old(state).committed(),
{
    let event_id = event.id;
    if !event.verify_hash() {
        return ValidationResult {
            event_id,
            valid: false,
            error: Some("hash integrity check failed".to_owned()),
        };
    }
    let inserted = state.insert_event_state_if_absent(event_id, ConsensusState::Pending);
    if !inserted {
        return ValidationResult { event_id, valid: true, error: Some("already processed".to_owned()) };
    }
    ValidationResult { event_id, valid: true, error: None }
}

} // verus!
