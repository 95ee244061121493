use ed25519_dalek::Signer;
use ed25519_dalek::SigningKey;
use omnia_consensus::ids::NodeId;
use omnia_consensus::slashing::SlashOffense;
use omnia_consensus::slashing::SlashingEngine;
use omnia_consensus::slashing::SlashingStoreError;
use omnia_consensus::slashing::SlashingUndoRecord;
use omnia_consensus::slashing::DEFAULT_EJECTION_THRESHOLD;
use omnia_consensus::slashing::DEFAULT_SLASH_THRESHOLD;
use omnia_consensus::slashing_undo::GovernanceAuthority;
use omnia_consensus::slashing_undo::GovernanceSignature;
use omnia_consensus::slashing_undo::SlashingUndoError;
use omnia_consensus::slashing_undo::SlashingUndoManager;
use omnia_consensus::slashing_undo::SlashingUndoRequest;

fn node(id: u8) -> NodeId {
    let mut n = [0u8; 32];
    n[0] = id;
    n
}

fn gov_key(seed: u8) -> SigningKey {
    SigningKey::from_bytes(&[seed; 32])
}

fn authority_of(key: &SigningKey) -> GovernanceAuthority {
    GovernanceAuthority::new(vec![key.verifying_key().to_bytes()], 1).unwrap()
}

fn governed(key: &SigningKey, interval: u64) -> SlashingUndoManager {
    SlashingUndoManager::with_governance_and_interval(authority_of(key), interval)
}

fn signed_request(
    validator: NodeId,
    slashed_round: u64,
    undo_round: u64,
    signers: &[(u32, &SigningKey)],
) -> SlashingUndoRequest {
    let mut request = SlashingUndoRequest {
        validator_id: validator,
        slashed_round,
        undo_round,
        proposal_hash: [1u8; 32],
        reason: "Test undo".to_string(),
        governance_signatures: vec![],
    };
    let commitment = request.authorization_commitment();
    request.governance_signatures = signers
        .iter()
        .map(|(idx, sk)| GovernanceSignature {
            key_index: *idx,
            signature: sk.sign(&commitment).to_bytes().to_vec(),
        })
        .collect();
    request
}

#[test]
fn test_undo_liveness_violation() {
    let gov = gov_key(7);
    let mut slashing = SlashingEngine::new_in_memory(DEFAULT_SLASH_THRESHOLD, DEFAULT_EJECTION_THRESHOLD);
    let mut undo_mgr = SlashingUndoManager::with_governance(authority_of(&gov));
    let n = node(1);
    slashing.register_validator(n, 10_000);
    slashing.record_offense(n, SlashOffense::LivenessViolation);
    assert_eq!(slashing.slash_points_of(&n), 100);
    let request = signed_request(n, 50, 100, &[(0, &gov)]);
    let record = undo_mgr.apply_undo(&mut slashing, request, 100).unwrap();
    assert_eq!(record.points_before, 100);
    assert_eq!(record.points_after, 0);
    assert_eq!(slashing.slash_points_of(&n), 0);
    assert_eq!(undo_mgr.total_undos(&slashing), 1);
}

#[test]
fn undo_without_governance_authority_is_rejected() {
    let mut slashing = SlashingEngine::new_in_memory(DEFAULT_SLASH_THRESHOLD, DEFAULT_EJECTION_THRESHOLD);
    let mut undo_mgr = SlashingUndoManager::new();
    let n = node(1);
    slashing.register_validator(n, 10_000);
    slashing.record_offense(n, SlashOffense::Equivocation);
    let gov = gov_key(7);
    let request = signed_request(n, 50, 100, &[(0, &gov)]);
    let err = undo_mgr.apply_undo(&mut slashing, request, 100).unwrap_err();
    assert!(matches!(err, SlashingUndoError::Unauthorized(_)));
    assert_eq!(slashing.slash_points_of(&n), 500);
}

#[test]
fn undo_signed_by_wrong_key_is_rejected() {
    let gov = gov_key(7);
    let attacker = gov_key(66);
    let mut slashing = SlashingEngine::new_in_memory(DEFAULT_SLASH_THRESHOLD, DEFAULT_EJECTION_THRESHOLD);
    let mut undo_mgr = SlashingUndoManager::with_governance(authority_of(&gov));
    let n = node(1);
    slashing.register_validator(n, 10_000);
    slashing.record_offense(n, SlashOffense::Equivocation);
    let request = signed_request(n, 50, 100, &[(0, &attacker)]);
    let err = undo_mgr.apply_undo(&mut slashing, request, 100).unwrap_err();
    assert!(matches!(err, SlashingUndoError::Unauthorized(_)));
    assert_eq!(slashing.slash_points_of(&n), 500);
}

#[test]
fn unsigned_undo_is_rejected() {
    let gov = gov_key(7);
    let mut slashing = SlashingEngine::new_in_memory(DEFAULT_SLASH_THRESHOLD, DEFAULT_EJECTION_THRESHOLD);
    let mut undo_mgr = SlashingUndoManager::with_governance(authority_of(&gov));
    let n = node(1);
    slashing.register_validator(n, 10_000);
    slashing.record_offense(n, SlashOffense::Equivocation);
    let request = signed_request(n, 50, 100, &[]);
    assert!(matches!(
        undo_mgr.apply_undo(&mut slashing, request, 100),
        Err(SlashingUndoError::Unauthorized(_))
    ));
}

#[test]
fn threshold_requires_multiple_signers() {
    let k0 = gov_key(1);
    let k1 = gov_key(2);
    let k2 = gov_key(3);
    let authority = GovernanceAuthority::new(
        vec![
            k0.verifying_key().to_bytes(),
            k1.verifying_key().to_bytes(),
            k2.verifying_key().to_bytes(),
        ],
        2,
    )
    .unwrap();
    let mut slashing = SlashingEngine::new_in_memory(DEFAULT_SLASH_THRESHOLD, DEFAULT_EJECTION_THRESHOLD);
    let mut undo_mgr = SlashingUndoManager::with_governance(authority);
    let n = node(1);
    slashing.register_validator(n, 10_000);
    slashing.record_offense(n, SlashOffense::Equivocation);
    slashing.record_offense(n, SlashOffense::LivenessViolation);
    let one = signed_request(n, 50, 100, &[(0, &k0)]);
    assert!(matches!(
        undo_mgr.apply_undo(&mut slashing, one, 100),
        Err(SlashingUndoError::Unauthorized(_))
    ));
    let two = signed_request(n, 50, 100, &[(0, &k0), (2, &k2)]);
    assert!(undo_mgr.apply_undo(&mut slashing, two, 100).is_ok());
}

#[test]
fn test_undo_rate_limit() {
    let gov = gov_key(7);
    let mut slashing = SlashingEngine::new_in_memory(DEFAULT_SLASH_THRESHOLD, DEFAULT_EJECTION_THRESHOLD);
    let mut undo_mgr = governed(&gov, 100);
    let n = node(3);
    slashing.register_validator(n, 10_000);
    slashing.record_offense(n, SlashOffense::Equivocation);
    slashing.record_offense(n, SlashOffense::LivenessViolation);
    undo_mgr
        .apply_undo(&mut slashing, signed_request(n, 50, 100, &[(0, &gov)]), 100)
        .unwrap();
    assert!(undo_mgr
        .apply_undo(&mut slashing, signed_request(n, 50, 150, &[(0, &gov)]), 150)
        .is_err());
    undo_mgr
        .apply_undo(&mut slashing, signed_request(n, 50, 200, &[(0, &gov)]), 200)
        .unwrap();
    assert_eq!(undo_mgr.total_undos(&slashing), 2);
}

#[test]
fn test_can_undo_rate_limit() {
    let gov = gov_key(7);
    let mut slashing = SlashingEngine::new_in_memory(DEFAULT_SLASH_THRESHOLD, DEFAULT_EJECTION_THRESHOLD);
    let mut undo_mgr = governed(&gov, 100);
    let n = node(4);
    slashing.register_validator(n, 10_000);
    slashing.record_offense(n, SlashOffense::Equivocation);
    assert!(undo_mgr.can_undo(&slashing, &n, 0));
    undo_mgr
        .apply_undo(&mut slashing, signed_request(n, 50, 50, &[(0, &gov)]), 50)
        .unwrap();
    assert!(!undo_mgr.can_undo(&slashing, &n, 100));
    assert!(undo_mgr.can_undo(&slashing, &n, 150));
}

#[test]
fn test_undo_no_slash_points() {
    let gov = gov_key(7);
    let mut slashing = SlashingEngine::new_in_memory(DEFAULT_SLASH_THRESHOLD, DEFAULT_EJECTION_THRESHOLD);
    let mut undo_mgr = SlashingUndoManager::with_governance(authority_of(&gov));
    let n = node(5);
    slashing.register_validator(n, 10_000);
    let request = signed_request(n, 50, 100, &[(0, &gov)]);
    assert!(undo_mgr.apply_undo(&mut slashing, request, 100).is_err());
}

#[test]
fn test_audit_log() {
    let gov = gov_key(7);
    let mut slashing = SlashingEngine::new_in_memory(DEFAULT_SLASH_THRESHOLD, DEFAULT_EJECTION_THRESHOLD);
    let mut undo_mgr = SlashingUndoManager::with_governance(authority_of(&gov));
    let n1 = node(10);
    let n2 = node(20);
    slashing.register_validator(n1, 10_000);
    slashing.register_validator(n2, 10_000);
    slashing.record_offense(n1, SlashOffense::LivenessViolation);
    slashing.record_offense(n2, SlashOffense::LivenessViolation);
    undo_mgr
        .apply_undo(&mut slashing, signed_request(n1, 50, 100, &[(0, &gov)]), 100)
        .unwrap();
    undo_mgr
        .apply_undo(&mut slashing, signed_request(n2, 50, 100, &[(0, &gov)]), 100)
        .unwrap();
    assert_eq!(undo_mgr.audit_log(&slashing).len(), 2);
    assert_eq!(undo_mgr.history(&slashing, &n1).len(), 1);
    assert_eq!(undo_mgr.history(&slashing, &n2).len(), 1);
}

#[test]
fn governance_authority_rejects_bad_config() {
    assert!(GovernanceAuthority::new(vec![], 1).is_err());
    assert!(GovernanceAuthority::new(vec![[1u8; 32]], 0).is_err());
    assert!(GovernanceAuthority::new(vec![[1u8; 32]], 2).is_err());
    assert!(GovernanceAuthority::new(vec![[1u8; 32]], 1).is_ok());
}

#[test]
fn test_slashing_undo_record_fields() {
    let record = SlashingUndoRecord {
        validator_id: node(42),
        proposal_hash: [3u8; 32],
        points_before: 500,
        points_after: 400,
        slashed_round: 50,
        undo_round: 100,
        timestamp: 1234567890,
        reason: "Test".to_string(),
    };
    assert_eq!(record.validator_id[0], 42);
    assert_eq!(record.slashed_round, 50);
    assert_eq!(record.undo_round, 100);
}

#[test]
fn test_slashing_undo_error_variants_display() {
    let e = SlashingUndoError::RateLimitExceeded {
        validator_prefix: [1, 2, 3, 4],
        last_round: 50,
        current_round: 75,
        min_interval: 100,
    };
    assert!(e.message().contains("rate limit"));
    let e = SlashingUndoError::NoOffenseHistory([1, 2, 3, 4]);
    assert!(e.message().contains("no offense history"));
    let store_err = SlashingStoreError::Persistence("db error".to_string());
    let e = SlashingUndoError::UndoFailed(store_err);
    assert!(e.message().contains("slashing undo failed"));
}

#[test]
fn test_slashing_undo_error_from_slashing_store_error() {
    let store_err = SlashingStoreError::Serialization("serde fail".to_string());
    let undo_err: SlashingUndoError = store_err.into();
    assert!(matches!(undo_err, SlashingUndoError::UndoFailed(_)));
}

#[test]
fn undo_authority_threshold_getter() {
    let k0 = gov_key(1);
    let k1 = gov_key(2);
    let a = GovernanceAuthority::new(vec![k0.verifying_key().to_bytes(), k1.verifying_key().to_bytes()], 2).unwrap();
    assert_eq!(a.threshold(), 2);
    let request = signed_request(node(1), 1, 2, &[(0, &k0), (0, &k0)]);
    // The same key counted twice does not reach a threshold of two.
    assert!(!a.verify(&request.authorization_commitment(), &request.governance_signatures));
    let request = signed_request(node(1), 1, 2, &[(0, &k0), (1, &k1)]);
    assert!(a.verify(&request.authorization_commitment(), &request.governance_signatures));
}

#[test]
fn undo_commitment_depends_on_every_field() {
    let base = signed_request(node(1), 10, 20, &[]);
    let c0 = base.authorization_commitment();
    let other_round = signed_request(node(1), 10, 21, &[]);
    assert_ne!(c0, other_round.authorization_commitment());
    let other_validator = signed_request(node(2), 10, 20, &[]);
    assert_ne!(c0, other_validator.authorization_commitment());
}
