use omnia_consensus::batch::compute_merkle_root;
use omnia_consensus::batch::BatchConfig;
use omnia_consensus::batch::BatchError;
use omnia_consensus::batch::BatchIngestor;
use omnia_consensus::batch::BatchProof;
use omnia_consensus::batch::ConsensusEventBatch;
use omnia_consensus::batch::MAX_BATCH_SIZE;
use omnia_consensus::causal_graph::CausalGraph;
use omnia_consensus::event::Event;
use omnia_consensus::ids::NodeId;
use omnia_consensus::vector_clock::VectorClock;

fn node(id: u8) -> NodeId {
    let mut n = [0u8; 32];
    n[0] = id;
    n
}

fn signed_event(creator: NodeId, payload: Vec<u8>) -> Event {
    Event::genesis(creator, payload)
}

fn domain_hash(domain: &[u8], data: &[u8]) -> [u8; 32] {
    let mut h = blake3::Hasher::new();
    h.update(domain);
    h.update(data);
    *h.finalize().as_bytes()
}

#[test]
fn test_batch_proof_compute_single_event() {
    let event = signed_event(node(1), vec![1, 2, 3]);
    let proof = BatchProof::compute(std::slice::from_ref(&event)).unwrap();
    assert_eq!(proof.event_count, 1);
    assert_ne!(proof.merkle_root, [0u8; 32]);
    assert_ne!(proof.batch_id, [0u8; 32]);
}

#[test]
fn test_batch_proof_compute_multiple_events() {
    let events: Vec<Event> = (0..5).map(|i| signed_event(node(1), vec![i])).collect();
    let proof = BatchProof::compute(&events).unwrap();
    assert_eq!(proof.event_count, 5);
}

#[test]
fn test_batch_proof_verify_success() {
    let events: Vec<Event> = (0..3).map(|i| signed_event(node(1), vec![i])).collect();
    let proof = BatchProof::compute(&events).unwrap();
    assert!(proof.verify(&events).is_ok());
}

#[test]
fn test_batch_proof_verify_wrong_events() {
    let events_a: Vec<Event> = (0..3).map(|i| signed_event(node(1), vec![i])).collect();
    let events_b: Vec<Event> = (0..3).map(|i| signed_event(node(2), vec![i])).collect();
    let proof = BatchProof::compute(&events_a).unwrap();
    assert!(proof.verify(&events_b).is_err());
}

#[test]
fn test_batch_proof_verify_count_mismatch() {
    let events: Vec<Event> = (0..3).map(|i| signed_event(node(1), vec![i])).collect();
    let proof = BatchProof::compute(&events).unwrap();
    assert!(proof.verify(&events[..2]).is_err());
}

#[test]
fn test_batch_proof_empty() {
    let result = BatchProof::compute(&[]);
    assert!(matches!(result, Err(BatchError::EmptyBatch)));
}

#[test]
fn test_batch_proof_deterministic() {
    let events: Vec<Event> = (0..5).map(|i| signed_event(node(1), vec![i])).collect();
    let proof1 = BatchProof::compute(&events).unwrap();
    let proof2 = BatchProof::compute(&events).unwrap();
    assert_eq!(proof1.merkle_root, proof2.merkle_root);
    assert_eq!(proof1.batch_id, proof2.batch_id);
}

#[test]
fn test_consensus_event_batch_new() {
    let events: Vec<Event> = (0..3).map(|i| signed_event(node(1), vec![i])).collect();
    let batch = ConsensusEventBatch::new(events, node(1), 0, VectorClock::new(), MAX_BATCH_SIZE).unwrap();
    assert_eq!(batch.events.len(), 3);
    assert_eq!(batch.sequence, 0);
    assert_eq!(batch.creator, node(1));
    assert!(batch.timestamp > 0);
}

#[test]
fn test_consensus_event_batch_empty() {
    let result = ConsensusEventBatch::new(vec![], node(1), 0, VectorClock::new(), MAX_BATCH_SIZE);
    assert!(matches!(result, Err(BatchError::EmptyBatch)));
}

#[test]
fn test_consensus_event_batch_too_large() {
    let events: Vec<Event> = (0..=MAX_BATCH_SIZE).map(|i| signed_event(node(1), vec![i as u8])).collect();
    let result = ConsensusEventBatch::new(events, node(1), 0, VectorClock::new(), MAX_BATCH_SIZE);
    assert!(matches!(result, Err(BatchError::BatchTooLarge(_, _))));
}

#[test]
fn test_consensus_event_batch_validate_proof() {
    let events: Vec<Event> = (0..3).map(|i| signed_event(node(1), vec![i])).collect();
    let batch = ConsensusEventBatch::new(events, node(1), 0, VectorClock::new(), MAX_BATCH_SIZE).unwrap();
    assert!(batch.validate_proof().is_ok());
}

#[test]
fn test_consensus_event_batch_validate_state_root() {
    let events: Vec<Event> = (0..3).map(|i| signed_event(node(1), vec![i])).collect();
    let batch = ConsensusEventBatch::new(events, node(1), 0, VectorClock::new(), MAX_BATCH_SIZE).unwrap();
    assert!(batch.validate_state_root(&batch.proof.merkle_root).is_ok());
    assert!(batch.validate_state_root(&[0u8; 32]).is_err());
}

#[test]
fn test_batch_ingestor_submit_and_flush() {
    let config = BatchConfig { flush_size: 3, ..Default::default() };
    let mut ingestor = BatchIngestor::new(config, node(1));
    assert!(ingestor.submit(signed_event(node(1), vec![1])).is_none());
    assert!(ingestor.submit(signed_event(node(1), vec![2])).is_none());
    assert_eq!(ingestor.buffered_count(), 2);
    let batch = ingestor.submit(signed_event(node(1), vec![3]));
    assert!(batch.is_some());
    assert_eq!(ingestor.buffered_count(), 0);
    let batch = batch.unwrap();
    assert_eq!(batch.events.len(), 3);
    assert_eq!(batch.sequence, 0);
}

#[test]
fn test_batch_ingestor_manual_flush() {
    let config = BatchConfig { flush_size: 100, ..Default::default() };
    let mut ingestor = BatchIngestor::new(config, node(1));
    ingestor.submit(signed_event(node(1), vec![1]));
    ingestor.submit(signed_event(node(1), vec![2]));
    assert_eq!(ingestor.buffered_count(), 2);
    let batch = ingestor.flush();
    assert!(batch.is_some());
    assert_eq!(ingestor.buffered_count(), 0);
    let batch = batch.unwrap();
    assert_eq!(batch.events.len(), 2);
}

#[test]
fn test_batch_ingestor_flush_empty() {
    let config = BatchConfig::default();
    let mut ingestor = BatchIngestor::new(config, node(1));
    assert!(ingestor.flush().is_none());
}

#[test]
fn test_batch_ingestor_sequence_increments() {
    let config = BatchConfig { flush_size: 1, ..Default::default() };
    let mut ingestor = BatchIngestor::new(config, node(1));
    let batch1 = ingestor.submit(signed_event(node(1), vec![1])).unwrap();
    let batch2 = ingestor.submit(signed_event(node(1), vec![2])).unwrap();
    assert_eq!(batch1.sequence, 0);
    assert_eq!(batch2.sequence, 1);
}

#[test]
fn test_batch_ingestor_vector_clock_tracking() {
    let config = BatchConfig { flush_size: 1, ..Default::default() };
    let mut ingestor = BatchIngestor::new(config, node(1));
    let event = Event::genesis(node(1), vec![1]);
    ingestor.submit(event.duplicate());
    let vc = ingestor.vector_clock();
    assert!(vc.get(&node(1)) > 0);
}

#[test]
fn test_compute_merkle_root_single() {
    let hash = domain_hash(b"omnia-batch-proof", &[1u8; 32]);
    let root = compute_merkle_root(&[hash]);
    assert_eq!(root, hash);
}

#[test]
fn test_compute_merkle_root_empty() {
    let root = compute_merkle_root(&[]);
    assert_eq!(root, [0u8; 32]);
}

#[test]
fn test_batch_proof_tampered_merkle_root() {
    let events: Vec<Event> = (0..3).map(|i| signed_event(node(1), vec![i])).collect();
    let mut proof = BatchProof::compute(&events).unwrap();
    proof.merkle_root[0] ^= 0xFF;
    assert!(proof.verify(&events).is_err());
}

#[test]
fn test_batch_proof_tampered_batch_id() {
    let events: Vec<Event> = (0..3).map(|i| signed_event(node(1), vec![i])).collect();
    let mut proof = BatchProof::compute(&events).unwrap();
    proof.batch_id[0] ^= 0xFF;
    assert!(proof.verify(&events).is_err());
}

#[test]
fn test_batch_validate_with_graph() {
    let graph = CausalGraph::new();
    let events: Vec<Event> = (0..3).map(|i| signed_event(node(1), vec![i])).collect();
    let batch = ConsensusEventBatch::new(events, node(1), 0, VectorClock::new(), MAX_BATCH_SIZE).unwrap();
    assert!(batch.validate(&graph, MAX_BATCH_SIZE).is_ok());
}

#[test]
fn test_batch_validate_rejects_too_large() {
    let graph = CausalGraph::new();
    let events: Vec<Event> = (0..3).map(|i| signed_event(node(1), vec![i])).collect();
    let batch = ConsensusEventBatch::new(events, node(1), 0, VectorClock::new(), 100).unwrap();
    assert!(matches!(batch.validate(&graph, 2), Err(BatchError::BatchTooLarge(_, _))));
}

#[test]
fn batch_merkle_root_of_two_and_three_leaves() {
    let a = [1u8; 32];
    let b = [2u8; 32];
    let c = [3u8; 32];
    let mut ab = Vec::new();
    ab.extend_from_slice(&a);
    ab.extend_from_slice(&b);
    let hab = domain_hash(b"omnia-batch-proof", &ab);
    assert_eq!(compute_merkle_root(&[a, b]), hab);
    let mut cc = Vec::new();
    cc.extend_from_slice(&c);
    cc.extend_from_slice(&c);
    let hcc = domain_hash(b"omnia-batch-proof", &cc);
    let mut top = Vec::new();
    top.extend_from_slice(&hab);
    top.extend_from_slice(&hcc);
    assert_eq!(compute_merkle_root(&[a, b, c]), domain_hash(b"omnia-batch-proof", &top));
}

#[test]
fn batch_proof_is_order_independent_and_binds_count() {
    let events: Vec<Event> = (0..4).map(|i| signed_event(node(1), vec![i])).collect();
    let mut reversed: Vec<Event> = events.iter().map(|e| e.duplicate()).collect();
    reversed.reverse();
    let p1 = BatchProof::compute(&events).unwrap();
    let p2 = BatchProof::compute(&reversed).unwrap();
    assert_eq!(p1, p2);
    let mut id_input = Vec::new();
    id_input.extend_from_slice(&p1.merkle_root);
    id_input.extend_from_slice(&(4u64).to_le_bytes());
    assert_eq!(p1.batch_id, domain_hash(b"omnia-batch-id", &id_input));
}

#[test]
fn batch_validate_rejects_tampered_event_hash() {
    let graph = CausalGraph::new();
    let events: Vec<Event> = (0..2).map(|i| signed_event(node(1), vec![i])).collect();
    let mut batch = ConsensusEventBatch::new(events, node(1), 0, VectorClock::new(), MAX_BATCH_SIZE).unwrap();
    batch.events[0].payload = vec![99];
    assert!(matches!(batch.validate(&graph, MAX_BATCH_SIZE), Err(BatchError::EventValidationFailed(_))));
}

#[test]
fn batch_ingestor_drops_oversized_buffer() {
    let config = BatchConfig { max_batch_size: 2, flush_size: 10, flush_timeout_ms: 100 };
    let mut ingestor = BatchIngestor::new(config, node(1));
    for i in 0..3 {
        ingestor.submit(signed_event(node(1), vec![i]));
    }
    assert!(ingestor.flush().is_none());
    assert_eq!(ingestor.buffered_count(), 0);
    assert_eq!(ingestor.sequence(), 1);
}
