use omnia_consensus::causal_graph::CausalGraph;
use omnia_consensus::causal_graph::CausalGraphError;
use omnia_consensus::crypto::blake3_hash_domain;
use omnia_consensus::event::Event;
use omnia_consensus::event::EventStatus;
use omnia_consensus::ids::EventId;
use omnia_consensus::ids::NodeId;
use omnia_consensus::vector_clock::VectorClock;

fn graph_node(id: u8) -> NodeId {
    let mut n = [0u8; 32];
    n[0] = id;
    n[31] = 0x5a;
    n
}

fn clock_with(node: NodeId, value: u64) -> VectorClock {
    let mut vc = VectorClock::new();
    vc.set(node, value);
    vc
}

fn child_event(creator: NodeId, seq: u64, self_parent: Option<EventId>, other: Option<EventId>, payload: Vec<u8>) -> Event {
    Event::new(creator, seq, self_parent, other, clock_with(creator, seq + 1), 0, payload)
}

fn build_chain(graph: &mut CausalGraph, node: NodeId, count: usize) -> Vec<EventId> {
    let mut ids = Vec::new();
    let mut prev_id = None;
    for i in 0..count {
        let payload = vec![i as u8; 8];
        let event = match prev_id {
            Some(pid) => child_event(node, i as u64, Some(pid), None, payload),
            None => Event::genesis(node, payload),
        };
        let id = event.id;
        graph.insert(event).unwrap();
        prev_id = Some(id);
        ids.push(id);
    }
    ids
}

fn verify_merkle_proof(event_id: &EventId, proof: &[([u8; 32], bool)], root: &[u8; 32]) -> bool {
    let mut current = blake3_hash_domain(b"omnia-state-root", event_id);
    for (sibling, sibling_is_right) in proof {
        let mut hasher = blake3::Hasher::new();
        hasher.update(b"omnia-state-root");
        if *sibling_is_right {
            hasher.update(&current);
            hasher.update(sibling);
        } else {
            hasher.update(sibling);
            hasher.update(&current);
        }
        current = *hasher.finalize().as_bytes();
    }
    current == *root
}

#[test]
fn test_insert_and_retrieve() {
    let mut graph = CausalGraph::new();
    let n1 = graph_node(1);
    let event = Event::genesis(n1, vec![1, 2, 3]);
    let id = event.id;
    graph.insert(event.duplicate()).unwrap();
    assert!(graph.contains(&id));
    assert_eq!(graph.get(&id).unwrap().id, id);
}

#[test]
fn test_duplicate_rejection() {
    let mut graph = CausalGraph::new();
    let n1 = graph_node(1);
    let event = Event::genesis(n1, vec![]);
    graph.insert(event.duplicate()).unwrap();
    assert!(matches!(graph.insert(event), Err(CausalGraphError::DuplicateEvent(_))));
}

#[test]
fn test_missing_parent() {
    let mut graph = CausalGraph::new();
    let n1 = graph_node(1);
    graph.insert(Event::genesis(n1, vec![])).unwrap();
    let fake_parent = [99u8; 32];
    let event = child_event(n1, 1, Some(fake_parent), None, vec![]);
    assert!(matches!(graph.insert(event), Err(CausalGraphError::MissingParent(_))));
}

#[test]
fn test_ancestry() {
    let mut graph = CausalGraph::new();
    let n1 = graph_node(1);
    let g = Event::genesis(n1, vec![]);
    let g_id = g.id;
    graph.insert(g).unwrap();
    let child = child_event(n1, 1, Some(g_id), None, vec![]);
    let child_id = child.id;
    graph.insert(child).unwrap();
    let gc = child_event(n1, 2, Some(child_id), None, vec![]);
    let gc_id = gc.id;
    graph.insert(gc).unwrap();

    assert!(graph.is_ancestor_of(&gc_id, &g_id).unwrap());
    assert!(graph.is_ancestor_of(&child_id, &g_id).unwrap());
    assert!(!graph.is_ancestor_of(&g_id, &child_id).unwrap());

    let ancestors = graph.get_ancestors(&gc_id).unwrap();
    assert!(ancestors.contains(&g_id));
    assert!(ancestors.contains(&child_id));
}

#[test]
fn test_concurrent_events() {
    let mut graph = CausalGraph::new();
    let n1 = graph_node(1);
    let n2 = graph_node(2);
    let e1 = Event::genesis(n1, vec![1]);
    let e1_id = e1.id;
    graph.insert(e1).unwrap();
    let e2 = Event::genesis(n2, vec![2]);
    let e2_id = e2.id;
    graph.insert(e2).unwrap();

    let concurrent = graph.find_concurrent(&e1_id, 100);
    assert!(concurrent.iter().any(|e| e.id == e2_id));
}

#[test]
fn test_tips_management() {
    let mut graph = CausalGraph::new();
    let n1 = graph_node(1);
    let e1 = Event::genesis(n1, vec![]);
    let e1_id = e1.id;
    graph.insert(e1).unwrap();
    assert!(graph.tips().iter().any(|&t| t == e1_id));

    let e2 = child_event(n1, 1, Some(e1_id), None, vec![]);
    let e2_id = e2.id;
    graph.insert(e2).unwrap();
    assert!(!graph.tips().iter().any(|&t| t == e1_id));
    assert!(graph.tips().iter().any(|&t| t == e2_id));
}

#[test]
fn test_topological_order() {
    let mut graph = CausalGraph::new();
    let n1 = graph_node(1);
    let g = Event::genesis(n1, vec![]);
    let g_id = g.id;
    graph.insert(g).unwrap();
    let a = child_event(n1, 1, Some(g_id), None, vec![]);
    let a_id = a.id;
    graph.insert(a).unwrap();
    let b = child_event(n1, 2, Some(a_id), None, vec![]);
    let b_id = b.id;
    graph.insert(b).unwrap();

    let order = graph.topological_order(None).unwrap();
    let g_pos = order.iter().position(|&id| id == g_id).unwrap();
    let a_pos = order.iter().position(|&id| id == a_id).unwrap();
    let b_pos = order.iter().position(|&id| id == b_id).unwrap();
    assert!(g_pos < a_pos);
    assert!(a_pos < b_pos);
}

#[test]
fn test_integrity_check() {
    let mut graph = CausalGraph::new();
    graph.insert(Event::genesis(graph_node(1), vec![])).unwrap();
    assert!(graph.verify_integrity().is_ok());
}

#[test]
fn causal_graph_test_stats() {
    let mut graph = CausalGraph::new();
    graph.insert(Event::genesis(graph_node(1), vec![])).unwrap();
    graph.insert(Event::genesis(graph_node(2), vec![])).unwrap();
    let stats = graph.stats();
    assert_eq!(stats.total_events, 2);
    assert_eq!(stats.tip_count, 2);
    assert_eq!(stats.node_count, 2);
}

#[test]
fn test_finalize() {
    let mut graph = CausalGraph::new();
    let e = Event::genesis(graph_node(1), vec![]);
    let e_id = e.id;
    graph.insert(e).unwrap();
    graph.finalize_event(&e_id).unwrap();
    assert_eq!(graph.get(&e_id).unwrap().status, EventStatus::Finalized);
    assert_eq!(graph.stats().finalized_events, 1);
}

#[test]
fn test_state_root_changes_on_insert() {
    let mut graph = CausalGraph::new();
    let root1 = graph.state_root();
    assert_eq!(root1, [0u8; 32]);
    graph.insert(Event::genesis(graph_node(1), vec![1, 2, 3])).unwrap();
    let root2 = graph.state_root();
    assert_ne!(root1, root2);
    graph.insert(Event::genesis(graph_node(2), vec![4, 5, 6])).unwrap();
    let root3 = graph.state_root();
    assert_ne!(root2, root3);
}

#[test]
fn test_merkle_proof_verification() {
    let mut graph = CausalGraph::new();
    let event = Event::genesis(graph_node(1), vec![1, 2, 3]);
    let id = event.id;
    graph.insert(event).unwrap();
    let proof = graph.merkle_proof(&id).unwrap();
    let root = graph.state_root();
    assert!(verify_merkle_proof(&id, &proof, &root));
}

#[test]
fn test_clear_old_payloads() {
    let mut graph = CausalGraph::new();
    let n1 = graph_node(1);
    let mut prev_id = None;
    for i in 0..5u8 {
        let event = match prev_id {
            Some(pid) => child_event(n1, i as u64, Some(pid), None, vec![i]),
            None => Event::genesis(n1, vec![i]),
        };
        let id = event.id;
        graph.insert(event).unwrap();
        prev_id = Some(id);
    }
    assert_eq!(graph.len(), 5);
    let size_before = graph.payload_size();
    assert!(size_before > 0);
    graph.clear_old_payloads(3);
    let size_after = graph.payload_size();
    assert!(size_after < size_before);
    assert!(size_after > 0);
    assert_eq!(graph.len(), 5);
}

#[test]
fn test_state_root_unchanged_after_pruning() {
    let mut graph = CausalGraph::new();
    let ids = build_chain(&mut graph, graph_node(1), 7);
    assert_eq!(graph.len(), 7);
    let root_before = graph.state_root();
    assert_ne!(root_before, [0u8; 32]);
    graph.clear_old_payloads(4);
    let root_after = graph.state_root();
    assert_eq!(root_before, root_after, "state_root changed after pruning");
    let pruned_count = ids.iter().filter(|id| graph.get(id).unwrap().payload.is_empty()).count();
    assert!(pruned_count > 0, "No events were pruned");
    assert!(pruned_count < ids.len(), "All events were pruned");
}

#[test]
fn test_merkle_proof_valid_after_pruning_for_unpruned_events() {
    let mut graph = CausalGraph::new();
    let ids = build_chain(&mut graph, graph_node(1), 7);
    assert_eq!(graph.len(), 7);
    graph.clear_old_payloads(4);
    let root = graph.state_root();
    let unpruned: Vec<EventId> =
        ids.iter().filter(|id| !graph.get(id).unwrap().payload.is_empty()).copied().collect();
    assert!(!unpruned.is_empty(), "No unpruned events to test");
    for id in &unpruned {
        let proof = graph.merkle_proof(id).expect("merkle_proof should return Some for existing event");
        assert!(verify_merkle_proof(id, &proof, &root), "Merkle proof failed for unpruned event after pruning");
    }
}

#[test]
fn test_merkle_proof_valid_for_pruned_events() {
    let mut graph = CausalGraph::new();
    let ids = build_chain(&mut graph, graph_node(1), 7);
    assert_eq!(graph.len(), 7);
    let root_before = graph.state_root();
    graph.clear_old_payloads(4);
    let root_after = graph.state_root();
    assert_eq!(root_before, root_after);
    let pruned: Vec<EventId> = ids.iter().filter(|id| graph.get(id).unwrap().payload.is_empty()).copied().collect();
    assert!(!pruned.is_empty(), "No pruned events to test");
    for id in &pruned {
        let proof = graph.merkle_proof(id).expect("merkle_proof should return Some for pruned event still in graph");
        assert!(verify_merkle_proof(id, &proof, &root_after), "Merkle proof failed for pruned event");
    }
}

#[test]
fn causal_graph_test_prune_finalized_archive_mode() {
    let mut graph = CausalGraph::new();
    let e = Event::genesis(graph_node(1), vec![1, 2, 3]);
    let e_id = e.id;
    graph.insert(e).unwrap();
    graph.finalize_event_with_round(&e_id, 1).unwrap();
    let pruned = graph.prune_finalized(100, 0).unwrap();
    assert_eq!(pruned, 0);
    assert!(graph.contains(&e_id));
    assert!(!graph.is_pruned(&e_id));
}

#[test]
fn test_prune_finalized_basic() {
    let mut graph = CausalGraph::new();
    let n1 = graph_node(1);
    let e1 = Event::genesis(n1, vec![1]);
    let e1_id = e1.id;
    graph.insert(e1).unwrap();
    let e2 = child_event(n1, 1, Some(e1_id), None, vec![2]);
    let e2_id = e2.id;
    graph.insert(e2).unwrap();
    graph.finalize_event_with_round(&e1_id, 1).unwrap();
    graph.finalize_event_with_round(&e2_id, 5).unwrap();

    let pruned = graph.prune_finalized(5, 3).unwrap();
    assert_eq!(pruned, 1);
    assert!(!graph.contains(&e1_id));
    assert!(graph.is_pruned(&e1_id));
    assert!(graph.contains(&e2_id));
    assert!(!graph.is_pruned(&e2_id));
}

#[test]
fn test_get_checked_pruned_vs_not_found() {
    let mut graph = CausalGraph::new();
    let e = Event::genesis(graph_node(1), vec![1]);
    let e_id = e.id;
    graph.insert(e).unwrap();
    graph.finalize_event_with_round(&e_id, 1).unwrap();
    assert!(graph.get_checked(&e_id).is_ok());
    graph.prune_finalized(10, 5).unwrap();
    assert!(matches!(graph.get_checked(&e_id), Err(CausalGraphError::EventPruned(_))));
    let fake_id = [99u8; 32];
    assert!(matches!(graph.get_checked(&fake_id), Err(CausalGraphError::InvalidEvent(_))));
}

#[test]
fn test_finalize_rejects_pruned() {
    let mut graph = CausalGraph::new();
    let e = Event::genesis(graph_node(1), vec![1]);
    let e_id = e.id;
    graph.insert(e).unwrap();
    graph.finalize_event_with_round(&e_id, 1).unwrap();
    graph.prune_finalized(10, 5).unwrap();
    let result = graph.finalize_event_with_round(&e_id, 99);
    assert!(matches!(result, Err(CausalGraphError::EventPruned(_))));
}

#[test]
fn test_pruned_metadata_preserved() {
    let mut graph = CausalGraph::new();
    let n1 = graph_node(1);
    let e = Event::genesis(n1, vec![42]);
    let e_id = e.id;
    graph.insert(e).unwrap();
    graph.finalize_event_with_round(&e_id, 7).unwrap();
    let pruned = graph.prune_finalized(20, 10).unwrap();
    assert_eq!(pruned, 1);
    assert!(graph.is_pruned(&e_id));
    assert!(!graph.contains(&e_id));
    assert!(graph.by_creator(&n1).is_empty());
    let meta = graph.get_pruned_metadata(&e_id).unwrap();
    assert_eq!(meta.event_id, e_id);
    assert_eq!(meta.creator, n1);
    assert_eq!(meta.sequence, 0);
    assert_eq!(meta.depth, 1);
    assert_eq!(meta.finalized_round, 7);
}

#[test]
fn test_prune_finalized_nothing_to_prune() {
    let mut graph = CausalGraph::new();
    let e = Event::genesis(graph_node(1), vec![1]);
    let e_id = e.id;
    graph.insert(e).unwrap();
    graph.finalize_event_with_round(&e_id, 10).unwrap();
    let pruned = graph.prune_finalized(5, 3).unwrap();
    assert_eq!(pruned, 0);
    assert!(graph.contains(&e_id));
}

#[test]
fn test_pruned_events_bound_enforced() {
    let mut graph = CausalGraph::new();
    let g = Event::genesis(graph_node(1), vec![1, 2, 3]);
    let g_id = g.id;
    graph.insert(g).unwrap();
    graph.finalize_event_with_round(&g_id, 1).unwrap();
    let pruned = graph.prune_finalized(100, 1).unwrap();
    assert_eq!(pruned, 1);
    assert!(graph.is_pruned(&g_id));
    assert!(graph.get_pruned_metadata(&g_id).is_some());
}

#[test]
fn test_sequence_monotonicity_rejects_backward_sequence() {
    let mut graph = CausalGraph::new();
    let n1 = graph_node(1);
    let g = Event::genesis(n1, vec![]);
    let g_id = g.id;
    graph.insert(g).unwrap();
    graph.insert(child_event(n1, 1, Some(g_id), None, vec![])).unwrap();
    // A later creation time than the genesis event: a different event at sequence 0.
    let bad = Event::new(n1, 0, None, None, clock_with(n1, 1), 1, vec![]);
    let result = graph.insert(bad);
    assert!(matches!(result, Err(CausalGraphError::InvalidSequence { expected: 2, actual: 0, .. })));
}

#[test]
fn test_sequence_monotonicity_allows_equivocation_at_current_sequence() {
    let mut graph = CausalGraph::new();
    let n1 = graph_node(1);
    graph.insert(Event::genesis(n1, vec![])).unwrap();
    let eq_event = child_event(n1, 0, None, None, vec![0xAA]);
    let result = graph.insert(eq_event);
    assert!(result.is_ok(), "Equivocation at current sequence should be allowed through for detection");
    assert_eq!(graph.len(), 2);
    assert_eq!(graph.latest_sequence(&n1), 0);
}

#[test]
fn test_sequence_monotonicity_allows_equivocation_at_tip() {
    let mut graph = CausalGraph::new();
    let n1 = graph_node(1);
    let g = Event::genesis(n1, vec![]);
    let g_id = g.id;
    graph.insert(g).unwrap();
    let e1 = child_event(n1, 1, Some(g_id), None, vec![]);
    let e1_id = e1.id;
    graph.insert(e1).unwrap();
    graph.insert(child_event(n1, 2, Some(e1_id), None, vec![])).unwrap();
    let eq_event = child_event(n1, 2, Some(e1_id), None, vec![0xBB]);
    assert!(graph.insert(eq_event).is_ok(), "Equivocation at last_known sequence should be allowed");
    assert_eq!(graph.len(), 4);
}

#[test]
fn test_sequence_monotonicity_rejects_gap_without_buffer() {
    let mut graph = CausalGraph::new();
    let n1 = graph_node(1);
    let g = Event::genesis(n1, vec![]);
    let g_id = g.id;
    graph.insert(g).unwrap();
    let e3 = child_event(n1, 3, Some(g_id), None, vec![]);
    let result = graph.insert(e3);
    assert!(result.is_ok());
    assert!(result.unwrap().is_empty());
    assert_eq!(graph.buffered_sequence_count(&n1), 1);
}

#[test]
fn test_sequence_buffer_drains_on_arrival() {
    let mut graph = CausalGraph::new();
    let n1 = graph_node(1);
    let g = Event::genesis(n1, vec![]);
    let g_id = g.id;
    graph.insert(g).unwrap();

    let e2 = child_event(n1, 2, Some(g_id), None, vec![]);
    let e2_id = e2.id;
    let result = graph.insert(e2);
    assert!(result.is_ok());
    assert!(result.unwrap().is_empty());
    graph.insert(child_event(n1, 3, Some(e2_id), None, vec![])).unwrap();
    assert_eq!(graph.buffered_sequence_count(&n1), 2);
    assert_eq!(graph.len(), 1);

    let inserted = graph.insert(child_event(n1, 1, Some(g_id), None, vec![])).unwrap();
    assert_eq!(inserted.len(), 3);
    assert_eq!(graph.len(), 4);
    assert_eq!(graph.buffered_sequence_count(&n1), 0);
}

#[test]
fn test_sequence_buffer_gap_too_large() {
    let mut graph = CausalGraph::new();
    let n1 = graph_node(1);
    graph.insert(Event::genesis(n1, vec![])).unwrap();
    let big = child_event(n1, 1000, None, None, vec![]);
    assert!(matches!(graph.insert(big), Err(CausalGraphError::SequenceGapTooLarge { .. })));
}

#[test]
fn test_sequence_monotonicity_prevents_cycle_attack() {
    let mut graph = CausalGraph::new();
    let n1 = graph_node(1);
    let g = Event::genesis(n1, vec![]);
    let mut last_id = g.id;
    graph.insert(g).unwrap();
    for seq in 1..=5u64 {
        let e = child_event(n1, seq, Some(last_id), None, vec![]);
        last_id = e.id;
        graph.insert(e).unwrap();
    }
    let rogue = Event::new(n1, 0, None, None, clock_with(n1, 1), 1, vec![]);
    assert!(matches!(graph.insert(rogue), Err(CausalGraphError::InvalidSequence { expected: 6, actual: 0, .. })));
    let rogue2 = child_event(n1, 3, None, None, vec![]);
    assert!(matches!(graph.insert(rogue2), Err(CausalGraphError::InvalidSequence { expected: 6, actual: 3, .. })));
}

#[test]
fn test_independent_creators_not_affected() {
    let mut graph = CausalGraph::new();
    let n1 = graph_node(1);
    let n2 = graph_node(2);
    let g1 = Event::genesis(n1, vec![]);
    let g1_id = g1.id;
    graph.insert(g1).unwrap();
    let g2 = Event::genesis(n2, vec![]);
    let g2_id = g2.id;
    graph.insert(g2).unwrap();
    graph.insert(child_event(n2, 1, Some(g2_id), Some(g1_id), vec![])).unwrap();
    assert_eq!(graph.len(), 3);
}

#[test]
fn insert_rejects_tampered_id() {
    let mut graph = CausalGraph::new();
    let mut e = Event::genesis(graph_node(1), vec![7]);
    e.id[0] ^= 0xff;
    assert!(matches!(graph.insert(e), Err(CausalGraphError::InvalidEvent(_))));
    assert!(graph.is_empty());
}

#[test]
fn topological_order_puts_parents_before_children_across_creators() {
    let mut graph = CausalGraph::new();
    let n1 = graph_node(1);
    let n2 = graph_node(2);
    let g1 = Event::genesis(n1, vec![]);
    let g1_id = g1.id;
    graph.insert(g1).unwrap();
    let g2 = Event::genesis(n2, vec![]);
    let g2_id = g2.id;
    graph.insert(g2).unwrap();
    let c = child_event(n2, 1, Some(g2_id), Some(g1_id), vec![]);
    let c_id = c.id;
    graph.insert(c).unwrap();
    let order = graph.topological_order(None).unwrap();
    assert_eq!(order.len(), 3);
    let pos = |x: EventId| order.iter().position(|&id| id == x).unwrap();
    assert!(pos(g1_id) < pos(c_id));
    assert!(pos(g2_id) < pos(c_id));
}

#[test]
fn finalized_order_lists_only_finalized_events() {
    let mut graph = CausalGraph::new();
    let n1 = graph_node(1);
    let g = Event::genesis(n1, vec![]);
    let g_id = g.id;
    graph.insert(g).unwrap();
    let c = child_event(n1, 1, Some(g_id), None, vec![]);
    graph.insert(c).unwrap();
    graph.finalize_event(&g_id).unwrap();
    let order = graph.finalized_order().unwrap();
    assert_eq!(order.len(), 1);
    assert_eq!(order[0].id, g_id);
}

#[test]
fn integrity_accepts_a_diamond() {
    let mut graph = CausalGraph::new();
    let a = graph_node(1);
    let b = graph_node(2);
    let ga = Event::genesis(a, vec![]);
    let ga_id = ga.id;
    graph.insert(ga).unwrap();
    let gb = Event::genesis(b, vec![]);
    let gb_id = gb.id;
    graph.insert(gb).unwrap();
    let ea = child_event(a, 1, Some(ga_id), Some(gb_id), vec![]);
    let ea_id = ea.id;
    graph.insert(ea).unwrap();
    graph.insert(child_event(b, 1, Some(gb_id), Some(ea_id), vec![])).unwrap();
    assert!(graph.verify_integrity().is_ok());
}

#[test]
fn topological_order_takes_the_largest_ready_id_first() {
    let mut graph = CausalGraph::new();
    let mut ids = Vec::new();
    for n in 1..=4u8 {
        let e = Event::genesis(graph_node(n), vec![n]);
        ids.push(e.id);
        graph.insert(e).unwrap();
    }
    let order = graph.topological_order(None).unwrap();
    let mut expected = ids.clone();
    expected.sort();
    expected.reverse();
    assert_eq!(order, expected);
}

#[test]
fn topological_order_refuses_an_event_with_a_pruned_parent() {
    let mut graph = CausalGraph::new();
    let n1 = graph_node(1);
    let e1 = Event::genesis(n1, vec![1]);
    let e1_id = e1.id;
    graph.insert(e1).unwrap();
    let e2 = child_event(n1, 1, Some(e1_id), None, vec![2]);
    graph.insert(e2).unwrap();
    graph.finalize_event_with_round(&e1_id, 1).unwrap();
    assert_eq!(graph.prune_finalized(5, 3).unwrap(), 1);
    assert!(matches!(graph.topological_order(None), Err(CausalGraphError::EventPruned(_))));
}

#[test]
fn ancestry_is_transitive_along_a_chain() {
    let mut graph = CausalGraph::new();
    let ids = build_chain(&mut graph, graph_node(3), 3);
    assert!(graph.is_ancestor_of(&ids[2], &ids[1]).unwrap());
    assert!(graph.is_ancestor_of(&ids[1], &ids[0]).unwrap());
    assert!(graph.is_ancestor_of(&ids[2], &ids[0]).unwrap());
    assert!(!graph.is_ancestor_of(&ids[0], &ids[2]).unwrap());
    assert!(!graph.is_ancestor_of(&ids[1], &ids[1]).unwrap());
}
