use omnia_consensus::causal_graph::CausalGraph;
use omnia_consensus::consensus::ConsensusConfig;
use omnia_consensus::consensus::ConsensusEngine;
use omnia_consensus::event::Event;
use omnia_consensus::ids::EventId;
use omnia_consensus::ids::NodeId;
use omnia_consensus::slashing::SlashingEngine;
use omnia_consensus::slashing::DEFAULT_EJECTION_THRESHOLD;
use omnia_consensus::slashing::DEFAULT_SLASH_THRESHOLD;
use omnia_consensus::vector_clock::VectorClock;

fn validator_id(seed: u8) -> NodeId {
    let mut n = [0u8; 32];
    n[0] = seed;
    n[1] = 0xc0;
    n
}

fn create_consensus_node(total_nodes: usize, all_node_ids: &[NodeId]) -> ConsensusEngine<SlashingEngine> {
    let mut seed = [0u8; 32];
    seed[0] = 1;
    let config = ConsensusConfig {
        total_nodes,
        commit_delay_rounds: 1,
        optimistic_confirmation: true,
        optimistic_threshold: 3,
        max_look_ahead: 10,
        round_seed: seed,
        round_timeout_ms: 30_000,
        max_consecutive_timeouts: 3,
        max_sequence_entries: 10_000,
    };
    let slashing = SlashingEngine::new_in_memory(DEFAULT_SLASH_THRESHOLD, DEFAULT_EJECTION_THRESHOLD);
    let mut engine = ConsensusEngine::new(config, slashing);
    for &nid in all_node_ids {
        engine.register_validator(nid, 10_000);
    }
    engine
}

fn gossip(event: &Event, engines: &mut [ConsensusEngine<SlashingEngine>], graphs: &mut [CausalGraph]) {
    for (i, engine) in engines.iter_mut().enumerate() {
        graphs[i].insert(event.duplicate()).expect("graph insert should succeed");
        let committed = engine.process_event(event, &graphs[i]);
        assert!(committed.is_ok(), "Node {} should process the event without error", i);
    }
}

fn single_creator_run(num_engines: usize, events: u64) -> Vec<u64> {
    let node_ids: Vec<NodeId> = (0..4).map(validator_id).collect();
    let mut engines: Vec<ConsensusEngine<SlashingEngine>> =
        (0..num_engines).map(|_| create_consensus_node(4, &node_ids)).collect();
    let mut graphs: Vec<CausalGraph> = (0..num_engines).map(|_| CausalGraph::new()).collect();
    let creator = node_ids[0];
    let mut self_parent: Option<EventId> = None;
    let mut vector_clock = VectorClock::new();
    for seq in 0..events {
        vector_clock.set(creator, seq + 1);
        let event = match self_parent {
            None => Event::genesis(creator, vec![seq as u8]),
            Some(_) => Event::new(creator, seq, self_parent, None, vector_clock.clone_clock(), 0, vec![seq as u8]),
        };
        self_parent = Some(event.id);
        gossip(&event, &mut engines, &mut graphs);
    }
    engines.iter().map(|e| e.committed_count()).collect()
}

#[test]
fn test_multi_node_bft_finality() {
    let counts = single_creator_run(4, 10);
    let first = counts[0];
    for (i, &count) in counts.iter().enumerate() {
        assert_eq!(count, first, "Node {i} committed {count} events, expected {first}");
    }
}

#[test]
fn test_bft_safety_with_byzantine_node() {
    let counts = single_creator_run(3, 5);
    let first = counts[0];
    for (i, &count) in counts.iter().enumerate() {
        assert_eq!(count, first, "Honest node {i} committed {count} events, expected {first}");
    }
}

#[test]
fn test_consensus_progress_with_minority_faults() {
    let node_ids: Vec<NodeId> = (0..4).map(validator_id).collect();
    let honest = &node_ids[..3];
    let mut engines: Vec<ConsensusEngine<SlashingEngine>> =
        (0..3).map(|_| create_consensus_node(4, &node_ids)).collect();
    let mut graphs: Vec<CausalGraph> = (0..3).map(|_| CausalGraph::new()).collect();
    let mut self_parents: Vec<Option<EventId>> = vec![None; 3];
    let mut clocks: Vec<VectorClock> = (0..3).map(|_| VectorClock::new()).collect();

    for round in 0..10u64 {
        for node_idx in 0..3usize {
            let creator = honest[node_idx];
            clocks[node_idx].set(creator, round + 1);
            let other_parent = self_parents[(node_idx + 1) % 3];
            let payload = format!("round-{round}-node-{node_idx}").into_bytes();
            let event = match self_parents[node_idx] {
                None => Event::genesis(creator, payload),
                Some(_) => Event::new(
                    creator,
                    round,
                    self_parents[node_idx],
                    other_parent,
                    clocks[node_idx].clone_clock(),
                    0,
                    payload,
                ),
            };
            self_parents[node_idx] = Some(event.id);
            gossip(&event, &mut engines, &mut graphs);
        }
    }

    for (i, engine) in engines.iter().enumerate() {
        assert!(engine.committed_count() > 0, "Honest node {i} should have committed events, got 0");
    }
    let first = engines[0].committed_count();
    for (i, engine) in engines.iter().enumerate() {
        assert_eq!(engine.committed_count(), first, "Honest node {i} disagrees on the committed count");
    }
}
