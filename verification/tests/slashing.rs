use omnia_consensus::event::Event;
use omnia_consensus::ids::NodeId;
use omnia_consensus::slashing::SlashOffense;
use omnia_consensus::slashing::SlashOutcome;
use omnia_consensus::slashing::SlashPenalty;
use omnia_consensus::slashing::SlashingEngine;
use omnia_consensus::slashing::InMemorySlashingStore;
use omnia_consensus::slashing::SlashingStore;
use omnia_consensus::slashing::SlashingStoreError;
use omnia_consensus::slashing::DEFAULT_EJECTION_THRESHOLD;
use omnia_consensus::slashing::DEFAULT_SLASH_THRESHOLD;
use omnia_consensus::vector_clock::VectorClock;

fn node(id: u8) -> NodeId {
    let mut n = [0u8; 32];
    n[0] = id;
    n
}

fn event_with(creator: NodeId, seq: u64, payload: Vec<u8>) -> Event {
    let mut vc = VectorClock::new();
    vc.set(creator, 1);
    Event::new(creator, seq, None, None, vc, 0, payload)
}

#[test]
fn test_slash_offense_points() {
    assert_eq!(SlashOffense::Equivocation.points(), 500);
    assert_eq!(SlashOffense::LivenessViolation.points(), 100);
    assert_eq!(SlashOffense::InvalidAttestation.points(), 300);
}

#[test]
fn test_new_in_memory_slashing_engine() {
    let engine = SlashingEngine::new_in_memory(DEFAULT_SLASH_THRESHOLD, DEFAULT_EJECTION_THRESHOLD);
    let n = node(1);
    assert!(!engine.is_slashed(&n));
    assert!(!engine.is_ejected(&n));
    assert_eq!(engine.stake_of(&n), 0);
    assert_eq!(engine.slash_points_of(&n), 0);
}

#[test]
fn test_register_validator() {
    let mut engine = SlashingEngine::new_in_memory(500, 2000);
    let n = node(1);
    engine.register_validator(n, 10_000);
    assert_eq!(engine.stake_of(&n), 10_000);
    assert_eq!(engine.slash_points_of(&n), 0);
}

#[test]
fn test_warned_outcome() {
    let mut engine = SlashingEngine::new_in_memory(500, 2000);
    let n = node(1);
    engine.register_validator(n, 10_000);
    let outcome = engine.record_offense(n, SlashOffense::LivenessViolation);
    assert_eq!(outcome, SlashOutcome::Warned { node: n, points: 100 });
}

#[test]
fn test_slashed_outcome() {
    let mut engine = SlashingEngine::new_in_memory(500, 2000);
    let n = node(1);
    engine.register_validator(n, 10_000);
    let outcome = engine.record_offense(n, SlashOffense::Equivocation);
    assert_eq!(outcome, SlashOutcome::Slashed { node: n, amount: 10_000 });
    assert!(engine.is_slashed(&n));
}

#[test]
fn test_ejected_outcome() {
    let mut engine = SlashingEngine::new_in_memory(500, 2000);
    let n = node(1);
    engine.register_validator(n, 10_000);
    engine.record_offense(n, SlashOffense::Equivocation);
    assert!(engine.is_slashed(&n));
    assert!(!engine.is_ejected(&n));
    engine.record_offense(n, SlashOffense::Equivocation);
    assert!(!engine.is_ejected(&n));
    engine.record_offense(n, SlashOffense::Equivocation);
    assert!(!engine.is_ejected(&n));
    let outcome = engine.record_offense(n, SlashOffense::Equivocation);
    assert_eq!(outcome, SlashOutcome::Ejected { node: n });
    assert!(engine.is_ejected(&n));
}

#[test]
fn test_accumulated_points_across_offenses() {
    let mut engine = SlashingEngine::new_in_memory(500, 2000);
    let n = node(1);
    engine.register_validator(n, 10_000);
    engine.record_offense(n, SlashOffense::LivenessViolation);
    engine.record_offense(n, SlashOffense::LivenessViolation);
    engine.record_offense(n, SlashOffense::InvalidAttestation);
    assert!(engine.is_slashed(&n));
    assert_eq!(engine.slash_points_of(&n), 500);
}

#[test]
fn test_honest_node_never_slashed() {
    let mut engine = SlashingEngine::new_in_memory(500, 2000);
    let n = node(1);
    engine.register_validator(n, 10_000);
    assert!(!engine.is_slashed(&n));
    assert!(!engine.is_ejected(&n));
    assert_eq!(engine.slash_points_of(&n), 0);
}

#[test]
fn test_liveness_check_no_violation() {
    let mut engine = SlashingEngine::new_in_memory(500, 2000);
    let n = node(1);
    engine.register_validator(n, 10_000);
    let result = engine.check_liveness(n, 5, 10, 10);
    assert!(result.is_none());
}

#[test]
fn test_liveness_check_violation() {
    let mut engine = SlashingEngine::new_in_memory(500, 2000);
    let n = node(1);
    engine.register_validator(n, 10_000);
    let result = engine.check_liveness(n, 5, 20, 10);
    assert!(result.is_some());
    assert_eq!(engine.slash_points_of(&n), 100);
}

#[test]
fn test_stake_of_unregistered() {
    let engine = SlashingEngine::new_in_memory(500, 2000);
    let n = node(99);
    assert_eq!(engine.stake_of(&n), 0);
    assert_eq!(engine.slash_points_of(&n), 0);
}

#[test]
fn test_check_equivocation() {
    let n1 = node(1);
    let e1 = event_with(n1, 0, vec![1]);
    let e2 = event_with(n1, 0, vec![2]);
    assert!(SlashingEngine::check_equivocation(&e1, &e2));
    assert!(!SlashingEngine::check_equivocation(&e1, &e1));
}

#[test]
fn test_check_no_equivocation_different_sequence() {
    let n1 = node(1);
    let e1 = event_with(n1, 0, vec![1]);
    let e2 = event_with(n1, 1, vec![1]);
    assert!(!SlashingEngine::check_equivocation(&e1, &e2));
}

#[test]
fn test_undo_slash_respects_offense_type() {
    let mut engine = SlashingEngine::new_in_memory(500, 2000);
    let mut node = [0u8; 32];
    node[0] = 42;
    engine.register_validator(node, 10_000);
    engine.record_offense(node, SlashOffense::Equivocation);
    assert_eq!(engine.slash_points_of(&node), 500);
    engine.undo_slash(&node).unwrap();
    assert_eq!(engine.slash_points_of(&node), 0);
}

#[test]
fn test_undo_slash_mixed_offenses() {
    let mut engine = SlashingEngine::new_in_memory(500, 2000);
    let mut node = [0u8; 32];
    node[0] = 99;
    engine.register_validator(node, 10_000);
    engine.record_offense(node, SlashOffense::LivenessViolation);
    engine.record_offense(node, SlashOffense::Equivocation);
    engine.record_offense(node, SlashOffense::InvalidAttestation);
    assert_eq!(engine.slash_points_of(&node), 900);
    engine.undo_slash(&node).unwrap();
    assert_eq!(engine.slash_points_of(&node), 600);
    engine.undo_slash(&node).unwrap();
    assert_eq!(engine.slash_points_of(&node), 100);
    engine.undo_slash(&node).unwrap();
    assert_eq!(engine.slash_points_of(&node), 0);
}

#[test]
fn test_graded_slashing_equivocation_escalation() {
    let mut engine = SlashingEngine::new_in_memory(500, 2000);
    let node = [42u8; 32];
    engine.register_validator(node, 10_000);
    let penalty = engine.compute_penalty(node, &SlashOffense::Equivocation);
    assert!(matches!(penalty, SlashPenalty::Jailed { burn_bps: 500, .. }));
    engine.record_offense(node, SlashOffense::Equivocation);
    let penalty = engine.compute_penalty(node, &SlashOffense::Equivocation);
    assert!(matches!(penalty, SlashPenalty::Jailed { burn_bps: 2500, .. }));
    engine.record_offense(node, SlashOffense::Equivocation);
    engine.record_offense(node, SlashOffense::Equivocation);
    let penalty = engine.compute_penalty(node, &SlashOffense::Equivocation);
    assert!(matches!(penalty, SlashPenalty::Ejected { .. }));
}

#[test]
fn test_partial_burn_calculation() {
    assert_eq!(SlashingEngine::compute_burn_amount_bp(10_000, 500), 500);
    assert_eq!(SlashingEngine::compute_burn_amount_bp(10_000, 100), 100);
    assert_eq!(SlashingEngine::compute_burn_amount_bp(10_000, 10_000), 10_000);
    assert_eq!(SlashingEngine::compute_burn_amount_bp(10_000, 0), 0);
}

#[test]
fn test_graded_slashing_liveness_escalation() {
    let engine = SlashingEngine::new_in_memory(500, 2000);
    let node = [3u8; 32];
    let penalty = engine.compute_penalty(node, &SlashOffense::LivenessViolation);
    assert!(matches!(penalty, SlashPenalty::Warning { burn_bps: 100 }));
}

#[test]
fn test_graded_equivocation_escalation() {
    let mut engine = SlashingEngine::new_in_memory(500, 2000);
    let node = [42u8; 32];
    engine.register_validator(node, 10_000);
    let outcome = engine.record_offense_graded(node, SlashOffense::Equivocation, 100);
    assert!(matches!(outcome, SlashOutcome::Slashed { node: n, amount: 500 } if n == [42u8; 32]));
    assert!(engine.is_jailed_at(node, 100));
    assert!(engine.is_jailed_at(node, 1099));
    assert!(!engine.is_jailed_at(node, 1100));
    let outcome = engine.record_offense_graded(node, SlashOffense::Equivocation, 200);
    assert!(matches!(outcome, SlashOutcome::Slashed { node: n, amount: 2500 } if n == [42u8; 32]));
    let outcome = engine.record_offense_graded(node, SlashOffense::Equivocation, 300);
    assert!(matches!(outcome, SlashOutcome::Ejected { .. }));
}

#[test]
fn test_graded_liveness_escalation() {
    let mut engine = SlashingEngine::new_in_memory(500, 2000);
    let node = [7u8; 32];
    engine.register_validator(node, 10_000);
    let outcome = engine.record_offense_graded(node, SlashOffense::LivenessViolation, 100);
    assert!(matches!(outcome, SlashOutcome::Warned { node: n, points: 100 } if n == [7u8; 32]));
    let outcome = engine.record_offense_graded(node, SlashOffense::LivenessViolation, 200);
    assert!(matches!(outcome, SlashOutcome::Warned { node: n, points: 100 } if n == [7u8; 32]));
    let outcome = engine.record_offense_graded(node, SlashOffense::LivenessViolation, 300);
    assert!(matches!(outcome, SlashOutcome::Slashed { node: n, amount: 500 } if n == [7u8; 32]));
    assert!(engine.is_jailed_at(node, 300));
    assert!(!engine.is_jailed_at(node, 800));
}

#[test]
fn test_graded_invalid_attestation_escalation() {
    let mut engine = SlashingEngine::new_in_memory(500, 2000);
    let node = [9u8; 32];
    engine.register_validator(node, 10_000);
    let outcome = engine.record_offense_graded(node, SlashOffense::InvalidAttestation, 100);
    assert!(matches!(outcome, SlashOutcome::Warned { node: n, points: 200 } if n == [9u8; 32]));
    let outcome = engine.record_offense_graded(node, SlashOffense::InvalidAttestation, 200);
    assert!(matches!(outcome, SlashOutcome::Slashed { node: n, amount: 1000 } if n == [9u8; 32]));
    assert!(engine.is_jailed_at(node, 200));
    assert!(!engine.is_jailed_at(node, 2200));
    let outcome = engine.record_offense_graded(node, SlashOffense::InvalidAttestation, 300);
    assert!(matches!(outcome, SlashOutcome::Ejected { .. }));
}

#[test]
fn test_graded_same_type_escalation_independence() {
    let mut engine = SlashingEngine::new_in_memory(500, 2000);
    let node = [0xAA; 32];
    engine.register_validator(node, 10_000);
    let outcome = engine.record_offense_graded(node, SlashOffense::LivenessViolation, 100);
    assert!(matches!(outcome, SlashOutcome::Warned { .. }));
    let outcome = engine.record_offense_graded(node, SlashOffense::LivenessViolation, 200);
    assert!(matches!(outcome, SlashOutcome::Warned { .. }));
    let penalty = engine.compute_penalty(node, &SlashOffense::Equivocation);
    assert!(matches!(penalty, SlashPenalty::Jailed { burn_bps: 500, jail_rounds: 1000, auto_release: true }));
    let penalty = engine.compute_penalty(node, &SlashOffense::InvalidAttestation);
    assert!(matches!(penalty, SlashPenalty::Warning { burn_bps: 200 }));
}

#[test]
fn test_jail_auto_release() {
    let mut engine = SlashingEngine::new_in_memory(500, 2000);
    let node = [1u8; 32];
    engine.register_validator(node, 10_000);
    let outcome = engine.record_offense_graded(node, SlashOffense::Equivocation, 100);
    assert!(matches!(outcome, SlashOutcome::Slashed { .. }));
    assert!(engine.is_jailed(node, 100));
    assert!(engine.is_jailed_at(node, 100));
    assert!(engine.is_jailed(node, 1099));
    assert!(engine.is_jailed_at(node, 1099));
    assert!(!engine.is_jailed_at(node, 1100));
    assert!(!engine.is_jailed(node, 1100));
    let released = engine.release_expired_jails(1100);
    assert_eq!(released.len(), 1);
    assert_eq!(released[0], node);
    assert!(!engine.is_jailed(node, 1100));
    assert!(!engine.is_jailed_at(node, 1100));
    assert!(engine.jailed_validators().is_empty());
}

#[test]
fn test_jail_no_auto_release_stays() {
    let mut engine = SlashingEngine::new_in_memory(500, 2000);
    let node = [2u8; 32];
    engine.register_validator(node, 10_000);
    engine.record_offense_graded(node, SlashOffense::Equivocation, 100);
    engine.release_expired_jails(1100);
    let outcome = engine.record_offense_graded(node, SlashOffense::Equivocation, 1200);
    assert!(matches!(outcome, SlashOutcome::Slashed { .. }));
    let jailed = engine.jailed_validators();
    assert_eq!(jailed.len(), 1);
    assert!(!jailed[0].auto_release);
    let released = engine.release_expired_jails(20_000);
    assert!(released.is_empty());
}

#[test]
fn test_jail_prevents_consensus_participation() {
    let mut engine = SlashingEngine::new_in_memory(500, 2000);
    let node = [5u8; 32];
    engine.register_validator(node, 10_000);
    assert!(!engine.is_jailed_at(node, 0));
    assert!(!engine.is_jailed_at(node, 1000));
    engine.record_offense_graded(node, SlashOffense::Equivocation, 100);
    assert!(engine.is_jailed_at(node, 100));
    assert!(engine.is_jailed_at(node, 500));
    assert!(engine.is_jailed_at(node, 1099));
    assert!(!engine.is_jailed_at(node, 1100));
}

#[test]
fn test_graded_offense_still_accumulates_points() {
    let mut engine = SlashingEngine::new_in_memory(500, 2000);
    let node = [0xBB; 32];
    engine.register_validator(node, 10_000);
    engine.record_offense_graded(node, SlashOffense::LivenessViolation, 100);
    assert_eq!(engine.slash_points_of(&node), 100);
    engine.record_offense_graded(node, SlashOffense::LivenessViolation, 200);
    assert_eq!(engine.slash_points_of(&node), 200);
    engine.record_offense_graded(node, SlashOffense::Equivocation, 300);
    assert_eq!(engine.slash_points_of(&node), 700);
}

#[test]
fn test_slashing_event_emission_graded() {
    let mut engine = SlashingEngine::new_in_memory(500, 2000);
    let node = [2u8; 32];
    engine.register_validator(node, 10_000);
    let _outcome = engine.record_offense_graded(node, SlashOffense::LivenessViolation, 100);
    let _outcome = engine.record_offense_graded(node, SlashOffense::Equivocation, 200);
    engine.record_offense_graded(node, SlashOffense::Equivocation, 300);
    let _outcome = engine.record_offense_graded(node, SlashOffense::Equivocation, 400);
}

#[test]
fn slashing_undo_without_history_fails() {
    let mut engine = SlashingEngine::new_in_memory(500, 2000);
    assert!(engine.undo_slash(&node(3)).is_err());
}

#[test]
fn test_with_store_loads_empty_state() {
    let store = InMemorySlashingStore::new();
    let engine = SlashingEngine::with_store(&store).unwrap();
    let n = node(1);
    assert_eq!(engine.slash_points_of(&n), 0);
    assert_eq!(engine.stake_of(&n), 0);
    assert_eq!(engine.internal_slash_threshold(), 500);
    assert_eq!(engine.internal_ejection_threshold(), 2000);
}

#[test]
fn test_graded_typed_history_tracks_same_type() {
    let mut engine = SlashingEngine::new_in_memory(500, 2000);
    let node = [0xCC; 32];
    engine.register_validator(node, 10_000);
    engine.record_offense_graded(node, SlashOffense::LivenessViolation, 100);
    engine.record_offense_graded(node, SlashOffense::LivenessViolation, 200);
    engine.record_offense_graded(node, SlashOffense::Equivocation, 300);
    let history = engine.get_offense_history(node);
    assert_eq!(history.len(), 3);
    assert_eq!(history.iter().filter(|&&o| o == SlashOffense::LivenessViolation).count(), 2);
    assert_eq!(history.iter().filter(|&&o| o == SlashOffense::Equivocation).count(), 1);
}

#[test]
fn test_backward_compat_record_offense_still_works() {
    let mut engine = SlashingEngine::new_in_memory(500, 2000);
    let n = node(1);
    engine.register_validator(n, 10_000);
    let outcome = engine.record_offense(n, SlashOffense::LivenessViolation);
    assert_eq!(outcome, SlashOutcome::Warned { node: n, points: 100 });
    let outcome = engine.record_offense(n, SlashOffense::Equivocation);
    assert_eq!(outcome, SlashOutcome::Slashed { node: n, amount: 10_000 });
}

#[test]
fn test_compute_penalty_same_type_counting() {
    let mut engine = SlashingEngine::new_in_memory(500, 2000);
    let node = [0xDD; 32];
    engine.register_validator(node, 10_000);
    engine.record_offense(node, SlashOffense::LivenessViolation);
    engine.record_offense(node, SlashOffense::LivenessViolation);
    let penalty = engine.compute_penalty(node, &SlashOffense::Equivocation);
    assert!(matches!(penalty, SlashPenalty::Jailed { burn_bps: 500, jail_rounds: 1000, auto_release: true }));
    let penalty = engine.compute_penalty(node, &SlashOffense::LivenessViolation);
    assert!(matches!(penalty, SlashPenalty::Jailed { burn_bps: 500, jail_rounds: 500, auto_release: true }));
}

#[test]
fn test_burn_amount_for_helper() {
    let mut engine = SlashingEngine::new_in_memory(500, 2000);
    let node = [0xEE; 32];
    engine.register_validator(node, 10_000);
    assert_eq!(engine.compute_burn_amount_for(node, 500), Some(500));
    assert_eq!(engine.compute_burn_amount_for(node, 100), Some(100));
    assert_eq!(engine.compute_burn_amount_for(node, 2500), Some(2500));
    assert_eq!(engine.compute_burn_amount_for([0xFF; 32], 500), None);
}

#[test]
fn test_is_jailed_vs_is_jailed_at_semantics() {
    let mut engine = SlashingEngine::new_in_memory(500, 2000);
    let node = [0xAB; 32];
    engine.register_validator(node, 10_000);
    engine.record_offense_graded(node, SlashOffense::Equivocation, 100);
    assert!(!engine.is_jailed(node, 1100));
    assert!(!engine.is_jailed_at(node, 1100));
    assert!(engine.is_jailed(node, 1099));
    assert!(engine.is_jailed_at(node, 1099));

    // A second equivocation jails without automatic release.
    let node2 = [0xCD; 32];
    engine.register_validator(node2, 10_000);
    engine.record_offense_graded(node2, SlashOffense::Equivocation, 0);
    engine.release_expired_jails(1000);
    engine.record_offense_graded(node2, SlashOffense::Equivocation, 100);
    assert!(engine.is_jailed(node2, 300));
    assert!(engine.is_jailed_at(node2, 300));
    assert!(engine.is_jailed_at(node2, 9999));
    assert!(engine.is_jailed(node2, 9999));
}

#[test]
fn test_compute_burn_amount_for_public_api() {
    let mut engine = SlashingEngine::new_in_memory(500, 2000);
    let v = [0xF0; 32];
    engine.register_validator(v, 10_000);
    assert_eq!(engine.compute_burn_amount_for(v, 500), Some(500));
    assert_eq!(engine.compute_burn_amount_for(v, 100), Some(100));
    assert_eq!(engine.compute_burn_amount_for(v, 10_000), Some(10_000));
    assert_eq!(engine.compute_burn_amount_for([0xF1; 32], 500), None);
}

#[test]
fn test_graded_equivocation_full_cycle() {
    let mut engine = SlashingEngine::new_in_memory(500, 2000);
    let v = [0xA1; 32];
    engine.register_validator(v, 10_000);
    let outcome = engine.record_offense_graded(v, SlashOffense::Equivocation, 1000);
    assert!(matches!(outcome, SlashOutcome::Slashed { node: n, amount: 500 } if n == v));
    assert!(engine.is_jailed_at(v, 1000));
    assert!(engine.is_jailed_at(v, 1999));
    assert!(!engine.is_jailed_at(v, 2000));
    let released = engine.release_expired_jails(2000);
    assert_eq!(released, vec![v]);
    assert!(!engine.is_jailed_at(v, 2000));
    let outcome = engine.record_offense_graded(v, SlashOffense::Equivocation, 3000);
    assert!(matches!(outcome, SlashOutcome::Slashed { node: n, amount: 2500 } if n == v));
    let released = engine.release_expired_jails(9999);
    assert!(released.is_empty());
    let released = engine.try_release_from_jail(v, 8000).unwrap();
    assert!(released);
    let outcome = engine.record_offense_graded(v, SlashOffense::Equivocation, 9000);
    assert!(matches!(outcome, SlashOutcome::Ejected { node: n } if n == v));
}

#[test]
fn test_graded_liveness_full_cycle() {
    let mut engine = SlashingEngine::new_in_memory(500, 2000);
    let v = [0xB1; 32];
    engine.register_validator(v, 10_000);
    let outcome = engine.record_offense_graded(v, SlashOffense::LivenessViolation, 100);
    assert!(matches!(outcome, SlashOutcome::Warned { node: n, points: 100 } if n == v));
    assert!(!engine.is_jailed_at(v, 100));
    let outcome = engine.record_offense_graded(v, SlashOffense::LivenessViolation, 200);
    assert!(matches!(outcome, SlashOutcome::Warned { node: n, points: 100 } if n == v));
    assert!(!engine.is_jailed_at(v, 200));
    let outcome = engine.record_offense_graded(v, SlashOffense::LivenessViolation, 300);
    assert!(matches!(outcome, SlashOutcome::Slashed { node: n, amount: 500 } if n == v));
    assert!(engine.is_jailed_at(v, 300));
    assert!(!engine.is_jailed_at(v, 800));
    let released = engine.release_expired_jails(800);
    assert_eq!(released, vec![v]);
    let outcome = engine.record_offense_graded(v, SlashOffense::LivenessViolation, 900);
    assert!(matches!(outcome, SlashOutcome::Slashed { node: n, amount: 500 } if n == v));
}

#[test]
fn test_graded_invalid_attestation_full_cycle() {
    let mut engine = SlashingEngine::new_in_memory(500, 2000);
    let v = [0xC1; 32];
    engine.register_validator(v, 10_000);
    let outcome = engine.record_offense_graded(v, SlashOffense::InvalidAttestation, 100);
    assert!(matches!(outcome, SlashOutcome::Warned { node: n, points: 200 } if n == v));
    let outcome = engine.record_offense_graded(v, SlashOffense::InvalidAttestation, 200);
    assert!(matches!(outcome, SlashOutcome::Slashed { node: n, amount: 1000 } if n == v));
    assert!(engine.is_jailed_at(v, 200));
    assert!(!engine.is_jailed_at(v, 2200));
    let released = engine.release_expired_jails(2200);
    assert_eq!(released, vec![v]);
    let outcome = engine.record_offense_graded(v, SlashOffense::InvalidAttestation, 3000);
    assert!(matches!(outcome, SlashOutcome::Ejected { node: n } if n == v));
}

#[test]
fn test_graded_offense_jail_state_fields() {
    let mut engine = SlashingEngine::new_in_memory(500, 2000);
    let v = [0xD1; 32];
    engine.register_validator(v, 10_000);
    engine.record_offense_graded(v, SlashOffense::Equivocation, 500);
    let jailed = engine.jailed_validators();
    assert_eq!(jailed.len(), 1);
    let jail_state = &jailed[0];
    assert_eq!(jail_state.validator_id, v);
    assert_eq!(jail_state.jailed_at_round, 500);
    assert_eq!(jail_state.release_round, 1500);
    assert_eq!(jail_state.stake_locked, 500);
    assert!(jail_state.auto_release);
    assert_eq!(jail_state.offense_history.len(), 1);
    assert_eq!(jail_state.offense_history[0], SlashOffense::Equivocation);
}

#[test]
fn test_graded_mixed_offenses_dont_cross_escalate() {
    let mut engine = SlashingEngine::new_in_memory(500, 2000);
    let v = [0xE1; 32];
    engine.register_validator(v, 10_000);
    engine.record_offense_graded(v, SlashOffense::LivenessViolation, 100);
    engine.record_offense_graded(v, SlashOffense::LivenessViolation, 200);
    let penalty = engine.compute_penalty(v, &SlashOffense::Equivocation);
    assert!(matches!(penalty, SlashPenalty::Jailed { burn_bps: 500, jail_rounds: 1000, auto_release: true }));
    let penalty = engine.compute_penalty(v, &SlashOffense::InvalidAttestation);
    assert!(matches!(penalty, SlashPenalty::Warning { burn_bps: 200 }));
    let penalty = engine.compute_penalty(v, &SlashOffense::LivenessViolation);
    assert!(matches!(penalty, SlashPenalty::Jailed { burn_bps: 500, jail_rounds: 500, auto_release: true }));
}

#[test]
fn test_release_expired_jails_empty_registry() {
    let mut engine = SlashingEngine::new_in_memory(500, 2000);
    assert!(engine.release_expired_jails(1000).is_empty());
}

#[test]
fn test_is_jailed_at_unregistered_validator() {
    let engine = SlashingEngine::new_in_memory(500, 2000);
    let unregistered = [0x99; 32];
    assert!(!engine.is_jailed_at(unregistered, 0));
    assert!(!engine.is_jailed_at(unregistered, 1000));
}

#[test]
fn test_graded_warning_no_jail_entry() {
    let mut engine = SlashingEngine::new_in_memory(500, 2000);
    let v = [0x88; 32];
    engine.register_validator(v, 10_000);
    engine.record_offense_graded(v, SlashOffense::LivenessViolation, 100);
    assert!(engine.jailed_validators().is_empty());
    assert!(!engine.is_jailed_at(v, 100));
}

#[test]
fn test_graded_ejection_persists_state() {
    let mut engine = SlashingEngine::new_in_memory(500, 2000);
    let v = [0x77; 32];
    engine.register_validator(v, 10_000);
    engine.record_offense_graded(v, SlashOffense::Equivocation, 100);
    engine.release_expired_jails(1100);
    engine.record_offense_graded(v, SlashOffense::Equivocation, 1200);
    engine.try_release_from_jail(v, 7000).unwrap();
    let outcome = engine.record_offense_graded(v, SlashOffense::Equivocation, 8000);
    assert!(matches!(outcome, SlashOutcome::Ejected { .. }));
    assert_eq!(engine.slash_points_of(&v), 1500);
}

#[test]
fn test_compute_burn_amount_edge_cases() {
    assert_eq!(SlashingEngine::compute_burn_amount_bp(0, 500), 0);
    assert_eq!(SlashingEngine::compute_burn_amount_bp(10_000, 0), 0);
    assert_eq!(SlashingEngine::compute_burn_amount_bp(1, 1), 0);
    assert_eq!(SlashingEngine::compute_burn_amount_bp(10_000, 10_000), 10_000);
    assert_eq!(SlashingEngine::compute_burn_amount_bp(999, 100), 9);
}

#[test]
fn test_register_validator_overwrite() {
    let mut engine = SlashingEngine::new_in_memory(500, 2000);
    let n = node(1);
    engine.register_validator(n, 1_000);
    assert_eq!(engine.stake_of(&n), 1_000);
    engine.record_offense(n, SlashOffense::LivenessViolation);
    assert_eq!(engine.slash_points_of(&n), 100);
    engine.register_validator(n, 2_000);
    assert_eq!(engine.stake_of(&n), 2_000, "stake should be overwritten to 2_000");
    assert_eq!(engine.slash_points_of(&n), 100, "slash_points should be preserved across re-registration");
}

#[test]
fn test_multi_offense_accumulation_across_thresholds() {
    let mut engine = SlashingEngine::new_in_memory(500, 2000);
    let n = node(1);
    engine.register_validator(n, 10_000);
    for _ in 0..4 {
        let o = engine.record_offense(n, SlashOffense::LivenessViolation);
        assert!(matches!(o, SlashOutcome::Warned { .. }), "should be warned below slash threshold");
    }
    assert_eq!(engine.slash_points_of(&n), 400);
    assert!(!engine.is_slashed(&n));
    assert!(!engine.is_ejected(&n));
    let o = engine.record_offense(n, SlashOffense::LivenessViolation);
    assert!(matches!(o, SlashOutcome::Slashed { .. }));
    assert!(engine.is_slashed(&n));
    assert!(!engine.is_ejected(&n), "not yet ejected at 500 pts");
    engine.record_offense(n, SlashOffense::Equivocation);
    let o = engine.record_offense(n, SlashOffense::Equivocation);
    assert!(matches!(o, SlashOutcome::Slashed { .. }));
    assert_eq!(engine.slash_points_of(&n), 1500);
    assert!(engine.is_slashed(&n));
    assert!(!engine.is_ejected(&n));
    let o = engine.record_offense(n, SlashOffense::Equivocation);
    assert!(matches!(o, SlashOutcome::Ejected { node } if node == n));
    assert_eq!(engine.slash_points_of(&n), 2000);
    assert!(engine.is_ejected(&n));
}

#[test]
fn test_check_liveness_boundary() {
    let mut engine = SlashingEngine::new_in_memory(500, 2000);
    let n = node(1);
    engine.register_validator(n, 10_000);
    let result = engine.check_liveness(n, 5, 15, 10);
    assert!(result.is_none(), "at-threshold (10 == 10) should NOT trigger");
    assert_eq!(engine.slash_points_of(&n), 0, "no offense should have been recorded");
    let result = engine.check_liveness(n, 5, 16, 10);
    assert!(result.is_some(), "one-above-threshold (11 > 10) should trigger");
    assert_eq!(engine.slash_points_of(&n), 100);
}

#[test]
fn test_undo_slash_after_ejection() {
    let mut engine = SlashingEngine::new_in_memory(500, 2000);
    let n = node(1);
    engine.register_validator(n, 10_000);
    for _ in 0..4 {
        engine.record_offense(n, SlashOffense::Equivocation);
    }
    assert_eq!(engine.slash_points_of(&n), 2000);
    assert!(engine.is_ejected(&n));
    engine.undo_slash(&n).expect("undo after ejection");
    assert_eq!(engine.slash_points_of(&n), 1500);
    assert!(!engine.is_ejected(&n), "should no longer be ejected after one undo");
    assert!(engine.is_slashed(&n), "should still be slashed");
    for _ in 0..3 {
        engine.undo_slash(&n).expect("undo");
    }
    assert_eq!(engine.slash_points_of(&n), 0);
    assert!(!engine.is_slashed(&n));
    let err = engine.undo_slash(&n).unwrap_err();
    assert!(matches!(err, SlashingStoreError::UndoNoOffenseHistory(_)));
}

#[test]
fn test_to_state_round_trip() {
    let mut engine = SlashingEngine::new_in_memory(500, 2000);
    let n1 = node(1);
    let n2 = node(2);
    engine.register_validator(n1, 10_000);
    engine.register_validator(n2, 5_000);
    engine.record_offense(n1, SlashOffense::Equivocation);
    engine.record_offense(n2, SlashOffense::LivenessViolation);
    let snapshot = engine.to_state();
    assert_eq!(snapshot.slash_count(&n1), 500);
    assert_eq!(snapshot.slash_count(&n2), 100);
    let engine2 = SlashingEngine::with_state(snapshot);
    assert_eq!(engine2.slash_points_of(&n1), 500);
    assert_eq!(engine2.slash_points_of(&n2), 100);
    assert_eq!(engine2.stake_of(&n1), 10_000);
    assert_eq!(engine2.stake_of(&n2), 5_000);
    assert_eq!(engine2.internal_slash_threshold(), 500);
    assert_eq!(engine2.internal_ejection_threshold(), 2000);
    assert_eq!(engine2.get_offense_history(n1).len(), 1);
    assert_eq!(engine2.get_offense_history(n2).len(), 1);
    assert!(engine2.is_slashed(&n1));
    assert!(!engine2.is_slashed(&n2));
}

#[test]
fn test_internal_accessors() {
    let mut engine = SlashingEngine::new_in_memory(700, 3_000);
    let n1 = node(1);
    let n2 = node(2);
    engine.register_validator(n1, 10_000);
    engine.register_validator(n2, 5_000);
    engine.record_offense(n1, SlashOffense::LivenessViolation);
    engine.record_offense(n2, SlashOffense::Equivocation);
    assert_eq!(engine.internal_slash_points(), vec![(n1, 100), (n2, 500)]);
    assert_eq!(engine.internal_stakes(), vec![(n1, 10_000), (n2, 5_000)]);
    assert_eq!(engine.internal_slash_threshold(), 700);
    assert_eq!(engine.internal_ejection_threshold(), 3_000);
}

#[test]
fn test_compute_burn_amount_for_unregistered() {
    let engine = SlashingEngine::new_in_memory(500, 2000);
    assert_eq!(engine.compute_burn_amount_for(node(99), 5000), None);
}

#[test]
fn test_compute_burn_amount_for_registered() {
    let mut engine = SlashingEngine::new_in_memory(500, 2000);
    let n = node(1);
    engine.register_validator(n, 1_000);
    assert_eq!(engine.compute_burn_amount_for(n, 1000), Some(100));
    assert_eq!(engine.compute_burn_amount_for(n, 0), Some(0));
}

#[test]
fn test_record_offense_graded_escalation_invalid_attestation() {
    let mut engine = SlashingEngine::new_in_memory(500, 2000);
    let v = node(1);
    engine.register_validator(v, 10_000);
    let o1 = engine.record_offense_graded(v, SlashOffense::InvalidAttestation, 100);
    assert!(matches!(o1, SlashOutcome::Warned { node, points: 200 } if node == v));
    assert!(engine.jailed_validators().is_empty());
    let o2 = engine.record_offense_graded(v, SlashOffense::InvalidAttestation, 200);
    assert!(matches!(o2, SlashOutcome::Slashed { node, amount: 1000 } if node == v));
    assert!(engine.is_jailed_at(v, 200));
    assert!(!engine.is_jailed_at(v, 2200));
    let released = engine.release_expired_jails(2200);
    assert_eq!(released, vec![v]);
    let o3 = engine.record_offense_graded(v, SlashOffense::InvalidAttestation, 3000);
    assert!(matches!(o3, SlashOutcome::Ejected { node } if node == v));
}

#[test]
fn test_record_offense_graded_jail_auto_release_explicit() {
    let mut engine = SlashingEngine::new_in_memory(500, 2000);
    let v = node(1);
    engine.register_validator(v, 10_000);
    let outcome = engine.record_offense_graded(v, SlashOffense::Equivocation, 100);
    assert!(matches!(outcome, SlashOutcome::Slashed { .. }));
    assert_eq!(engine.jailed_validators().len(), 1);
    assert!(engine.is_jailed(v, 100));
    assert!(engine.is_jailed(v, 1099));
    let released = engine.try_release_from_jail(v, 500).expect("try_release");
    assert!(!released, "should not release before release_round");
    assert!(engine.is_jailed(v, 500));
    let released = engine.try_release_from_jail(v, 1100).expect("try_release");
    assert!(released, "should release at/past release_round");
    assert!(!engine.is_jailed(v, 1100), "is_jailed should be false after release");
    assert!(engine.jailed_validators().is_empty());
}

#[test]
fn test_release_expired_jails_batch_mixed_periods() {
    let mut engine = SlashingEngine::new_in_memory(500, 2000);
    let v1 = node(1);
    let v2 = node(2);
    let v3 = node(3);
    engine.register_validator(v1, 10_000);
    engine.register_validator(v2, 10_000);
    engine.register_validator(v3, 10_000);
    engine.record_offense_graded(v1, SlashOffense::Equivocation, 0);
    engine.record_offense_graded(v2, SlashOffense::Equivocation, 500);
    engine.record_offense_graded(v3, SlashOffense::Equivocation, 1000);
    assert_eq!(engine.jailed_validators().len(), 3);
    let released = engine.release_expired_jails(1200);
    assert_eq!(released.len(), 1);
    assert!(released.contains(&v1));
    let released = engine.release_expired_jails(1800);
    assert_eq!(released.len(), 1);
    assert!(released.contains(&v2));
    let released = engine.release_expired_jails(9999);
    assert_eq!(released.len(), 1);
    assert!(released.contains(&v3));
    assert!(engine.jailed_validators().is_empty());
    assert!(engine.release_expired_jails(99999).is_empty());
}

#[test]
fn test_get_offense_history_empty() {
    let engine = SlashingEngine::new_in_memory(500, 2000);
    assert!(engine.get_offense_history(node(99)).is_empty());
    let mut engine = SlashingEngine::new_in_memory(500, 2000);
    let n = node(1);
    engine.register_validator(n, 10_000);
    assert!(engine.get_offense_history(n).is_empty());
}

#[test]
fn test_get_offense_history_multiple_types() {
    let mut engine = SlashingEngine::new_in_memory(500, 2000);
    let n = node(1);
    engine.register_validator(n, 10_000);
    engine.record_offense(n, SlashOffense::LivenessViolation);
    engine.record_offense(n, SlashOffense::Equivocation);
    engine.record_offense(n, SlashOffense::InvalidAttestation);
    let history = engine.get_offense_history(n);
    assert_eq!(history.len(), 3);
    assert_eq!(history[0], SlashOffense::LivenessViolation);
    assert_eq!(history[1], SlashOffense::Equivocation);
    assert_eq!(history[2], SlashOffense::InvalidAttestation);
    assert!(engine.get_offense_history(node(2)).is_empty());
}

#[test]
fn test_jailed_validators_list_three() {
    let mut engine = SlashingEngine::new_in_memory(500, 2000);
    let v1 = node(1);
    let v2 = node(2);
    let v3 = node(3);
    engine.register_validator(v1, 10_000);
    engine.register_validator(v2, 10_000);
    engine.register_validator(v3, 10_000);
    engine.record_offense_graded(v1, SlashOffense::Equivocation, 100);
    engine.record_offense_graded(v2, SlashOffense::Equivocation, 200);
    engine.record_offense_graded(v3, SlashOffense::Equivocation, 300);
    let jailed = engine.jailed_validators();
    assert_eq!(jailed.len(), 3);
    let ids: Vec<NodeId> = jailed.iter().map(|j| j.validator_id).collect();
    assert!(ids.contains(&v1));
    assert!(ids.contains(&v2));
    assert!(ids.contains(&v3));
}

#[test]
fn test_decrement_slash_count_by() {
    let n = node(1);
    let mut engine = SlashingEngine::new_in_memory(500, 2000);
    engine.register_validator(n, 10_000);
    engine.record_offense(n, SlashOffense::Equivocation);
    let mut state = engine.to_state();
    assert_eq!(state.slash_count(&n), 500);
    state.decrement_slash_count_by(&n, 200).expect("decrement 200");
    assert_eq!(state.slash_count(&n), 300);
    state.decrement_slash_count_by(&n, 1_000).expect("decrement past zero");
    assert_eq!(state.slash_count(&n), 0);
    let err = state.decrement_slash_count_by(&n, 100).unwrap_err();
    assert!(matches!(err, SlashingStoreError::Persistence(_)));
}

#[test]
fn test_in_memory_store_round_trip() {
    let mut store = InMemorySlashingStore::new();
    let n = node(1);
    let mut engine = SlashingEngine::new_in_memory(500, 2000);
    engine.register_validator(n, 10_000);
    engine.record_offense(n, SlashOffense::Equivocation);
    store.save(&engine.to_state()).unwrap();
    let loaded = store.load().unwrap();
    assert_eq!(loaded.slash_count(&n), 500);
    let engine2 = SlashingEngine::with_state(loaded);
    assert_eq!(engine2.stake_of(&n), 10_000);
    assert_eq!(engine2.internal_slash_threshold(), 500);
    assert_eq!(engine2.internal_ejection_threshold(), 2000);
}

#[test]
fn test_with_store_preserves_state_via_redb() {
    let store = InMemorySlashingStore::new();
    let engine = SlashingEngine::with_store(&store).unwrap();
    let n = node(1);
    assert_eq!(engine.slash_points_of(&n), 0);
    assert_eq!(engine.stake_of(&n), 0);
}

#[test]
fn engine_state_survives_a_store_round_trip() {
    let mut store = InMemorySlashingStore::new();
    let n = node(4);
    let mut engine = SlashingEngine::new_in_memory(500, 2000);
    engine.register_validator(n, 7_000);
    engine.record_offense(n, SlashOffense::LivenessViolation);
    engine.persist_to(&mut store).unwrap();
    assert_eq!(store.get_slash_count(&n), 100);
    let engine2 = SlashingEngine::with_store(&store).unwrap();
    assert_eq!(engine2.slash_points_of(&n), 100);
    assert_eq!(engine2.stake_of(&n), 7_000);
    assert_eq!(engine2.get_offense_history(n), vec![SlashOffense::LivenessViolation]);
}

#[test]
fn in_memory_store_decrements() {
    let n = node(1);
    let mut engine = SlashingEngine::new_in_memory(500, 2000);
    engine.register_validator(n, 10_000);
    engine.record_offense(n, SlashOffense::Equivocation);
    let mut store = InMemorySlashingStore::new();
    store.save(&engine.to_state()).expect("save");
    assert_eq!(store.get_slash_count(&n), 500);
    store.decrement_slash_count_by(&n, 200).expect("decrement 200");
    assert_eq!(store.get_slash_count(&n), 300);
    store.decrement_slash_count(&n).expect("decrement by the minimum");
    assert_eq!(store.get_slash_count(&n), 200);
    store.decrement_slash_count_by(&n, 1_000).expect("decrement past zero");
    assert_eq!(store.get_slash_count(&n), 0);
    assert!(matches!(store.decrement_slash_count_by(&n, 1), Err(SlashingStoreError::Persistence(_))));
}

#[test]
fn an_engine_over_a_loaded_state_holds_that_state() {
    let n = node(4);
    let mut source = SlashingEngine::new_in_memory(500, 2000);
    source.register_validator(n, 10_000);
    source.record_offense(n, SlashOffense::Equivocation);
    let engine = SlashingEngine::with_loaded(Ok(source.to_state())).unwrap();
    assert_eq!(engine.slash_points_of(&n), 500);
    assert_eq!(engine.stake_of(&n), 10_000);
    assert_eq!(engine.to_state().thresholds(), (500, 2000));

    let failed = SlashingEngine::with_loaded(Err(SlashingStoreError::Persistence("unreadable".to_string())));
    assert!(matches!(failed, Err(SlashingStoreError::Persistence(m)) if m == "unreadable"));
}

#[test]
fn an_engine_opened_over_a_store_holds_the_stored_state() {
    let n = node(5);
    let mut source = SlashingEngine::new_in_memory(700, 3000);
    source.register_validator(n, 2_000);
    source.record_offense(n, SlashOffense::LivenessViolation);
    let mut store = InMemorySlashingStore::new();
    store.save(&source.to_state()).unwrap();
    let engine = SlashingEngine::with_store(&store).unwrap();
    assert_eq!(engine.slash_points_of(&n), 100);
    assert_eq!(engine.to_state().thresholds(), (700, 3000));
}

#[test]
fn a_saved_change_is_kept_by_the_engine_and_the_store() {
    let n = node(6);
    let mut store = InMemorySlashingStore::new();
    let mut engine = SlashingEngine::new_in_memory(500, 2000);
    engine.register_validator(n, 10_000);
    let snapshot = engine.to_state();
    engine.record_offense(n, SlashOffense::Equivocation);
    engine.persist_or_restore(&mut store, snapshot).unwrap();
    assert_eq!(engine.slash_points_of(&n), 500);
    assert_eq!(store.get_slash_count(&n), 500);
}

#[test]
fn decrementing_a_validator_without_points_is_a_persistence_error() {
    let mut store = InMemorySlashingStore::new();
    let err = store.decrement_slash_count(&node(7)).unwrap_err();
    assert!(matches!(err, SlashingStoreError::Persistence(_)));
    assert_eq!(store.get_slash_count(&node(7)), 0);
}
