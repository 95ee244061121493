use std::time::Duration;

use omnia_consensus::causal_graph::CausalGraph;
use omnia_consensus::consensus::coin_round;
use omnia_consensus::consensus::supermajority;
use omnia_consensus::consensus::ConsensusConfig;
use omnia_consensus::consensus::ConsensusEngine;
use omnia_consensus::consensus::ConsensusState;
use omnia_consensus::consensus::RoundTimer;
use omnia_consensus::consensus_store::ConsensusState as PersistedConsensusState;
use omnia_consensus::consensus_store::ConsensusStore;
use omnia_consensus::consensus_store::ConsensusStoreError;
use omnia_consensus::event::Event;
use omnia_consensus::ids::EventId;
use omnia_consensus::ids::NodeId;
use omnia_consensus::slashing::SlashingEngine;
use omnia_consensus::slashing::DEFAULT_EJECTION_THRESHOLD;
use omnia_consensus::slashing::DEFAULT_SLASH_THRESHOLD;
use omnia_consensus::vector_clock::VectorClock;

fn cnode(id: u8) -> NodeId {
    let mut n = [0u8; 32];
    n[0] = id;
    n
}

fn test_config() -> ConsensusConfig {
    let mut seed = [0u8; 32];
    seed[0] = 1;
    ConsensusConfig {
        total_nodes: 4,
        commit_delay_rounds: 1,
        optimistic_confirmation: true,
        optimistic_threshold: 3,
        max_look_ahead: 10,
        round_seed: seed,
        round_timeout_ms: 30_000,
        max_consecutive_timeouts: 3,
        max_sequence_entries: 10_000,
    }
}

fn new_engine(config: ConsensusConfig) -> ConsensusEngine<SlashingEngine> {
    ConsensusEngine::new(config, SlashingEngine::new_in_memory(DEFAULT_SLASH_THRESHOLD, DEFAULT_EJECTION_THRESHOLD))
}

fn setup_graph_with_events() -> (CausalGraph, Vec<EventId>) {
    let mut graph = CausalGraph::new();
    let nodes = [cnode(11), cnode(12), cnode(13), cnode(14)];
    let mut events = Vec::new();
    for n in &nodes {
        let e = Event::genesis(*n, vec![n[0]]);
        events.push(e.id);
        graph.insert(e).unwrap();
    }
    for i in 0..4 {
        let creator = nodes[i];
        let other = nodes[(i + 1) % 4];
        let mut vc = VectorClock::new();
        vc.set(creator, 2);
        vc.set(other, 1);
        let e = Event::new(creator, 1, Some(events[i]), Some(events[(i + 1) % 4]), vc, 0, vec![]);
        events.push(e.id);
        graph.insert(e).unwrap();
    }
    (graph, events)
}

fn genesis_graph(config: &ConsensusConfig) -> (ConsensusEngine<SlashingEngine>, CausalGraph, Vec<EventId>) {
    let mut engine = new_engine(*config);
    let mut graph = CausalGraph::new();
    let mut ids = Vec::new();
    for i in 0..4u8 {
        let e = Event::genesis(cnode(i), vec![i]);
        ids.push(e.id);
        graph.insert(e).unwrap();
    }
    for id in &ids {
        let event = graph.get(id).unwrap();
        engine.process_event(event, &graph).unwrap();
    }
    (engine, graph, ids)
}

#[test]
fn test_consensus_engine_creation() {
    let engine = new_engine(test_config());
    assert_eq!(engine.committed_count(), 0);
    assert_eq!(engine.stats().total_nodes, 4);
    assert_eq!(engine.stats().threshold, 3);
}

#[test]
fn test_process_event() {
    let mut engine = new_engine(test_config());
    let (graph, events) = setup_graph_with_events();
    for event_id in &events {
        let event = graph.get(event_id).unwrap();
        let committed = engine.process_event(event, &graph).unwrap();
        assert!(committed.len() <= events.len());
    }
    assert_eq!(engine.stats().total_tracked, events.len());
}

#[test]
fn test_supermajority_threshold() {
    assert_eq!(supermajority(4), 3);
    assert_eq!(supermajority(7), 5);
    assert_eq!(supermajority(10), 7);
    assert_eq!(supermajority(100), 67);
}

#[test]
fn test_consensus_state_enum() {
    assert_ne!(ConsensusState::Pending, ConsensusState::Committed);
    assert_eq!(ConsensusState::Witness { round: 5 }, ConsensusState::Witness { round: 5 });
}

#[test]
fn test_node_consensus_info() {
    let mut engine = new_engine(test_config());
    let (graph, events) = setup_graph_with_events();
    for event_id in &events {
        let event = graph.get(event_id).unwrap();
        engine.process_event(event, &graph).unwrap();
    }
    assert!(engine.stats().total_tracked > 0);
}

#[test]
fn test_insufficient_nodes_error() {
    let mut config = test_config();
    config.total_nodes = 3;
    let engine = new_engine(config);
    assert_eq!(engine.stats().threshold, 3);
}

#[test]
fn test_get_round() {
    let mut engine = new_engine(test_config());
    let (graph, events) = setup_graph_with_events();
    let event = graph.get(&events[0]).unwrap();
    engine.process_event(event, &graph).unwrap();
    assert!(engine.get_round(&events[0]).is_some());
}

#[test]
fn test_fame_determination() {
    let mut config = test_config();
    config.optimistic_confirmation = false;
    let mut engine = new_engine(config);
    let (graph, events) = setup_graph_with_events();
    for event_id in &events {
        let event = graph.get(event_id).unwrap();
        engine.process_event(event, &graph).unwrap();
    }
    assert_eq!(engine.stats().total_tracked, events.len());
}

#[test]
fn consensus_test_coin_round_deterministic() {
    let seed = [42u8; 32];
    assert_eq!(coin_round(5, &seed), coin_round(5, &seed), "Coin round must be deterministic for the same inputs");
    assert_eq!(coin_round(1, &seed), coin_round(1, &seed));
    let _ = coin_round(6, &seed);
}

#[test]
fn test_coin_round_breaks_tie() {
    let seed = [1u8; 32];
    let result: bool = coin_round(10, &seed);
    assert_eq!(result, coin_round(10, &seed), "Coin round must be deterministic");
}

#[test]
fn test_coin_round_differs_with_seed() {
    let seed_a = [1u8; 32];
    let seed_b = [2u8; 32];
    let found_difference = (0..100u64).any(|round| coin_round(round, &seed_a) != coin_round(round, &seed_b));
    assert!(found_difference, "coin_round should produce different results for different seeds");
}

#[test]
fn coin_round_is_low_bit_of_blake3_of_seed_and_round() {
    let seed = [9u8; 32];
    for round in 0..20u64 {
        let mut hasher = blake3::Hasher::new();
        hasher.update(&round.to_le_bytes());
        hasher.update(&seed);
        let expected = hasher.finalize().as_bytes()[0] & 1 == 1;
        assert_eq!(coin_round(round, &seed), expected);
    }
}

#[test]
fn test_record_acknowledgment() {
    let mut engine = new_engine(test_config());
    let (graph, events) = setup_graph_with_events();
    let event = graph.get(&events[0]).unwrap();
    engine.process_event(event, &graph).unwrap();
    engine.record_acknowledgment(events[0]);
    let state = engine.get_state(&events[0]);
    assert!(
        matches!(state, Some(ConsensusState::Acknowledged))
            || matches!(state, Some(ConsensusState::Witness { .. }))
            || matches!(state, Some(ConsensusState::Pending))
    );
}

#[test]
fn test_consensus_stats() {
    let engine = new_engine(test_config());
    let stats = engine.stats();
    assert_eq!(stats.total_tracked, 0);
    assert_eq!(stats.committed, 0);
    assert_eq!(stats.current_max_round, 0);
    assert_eq!(stats.total_nodes, 4);
}

#[test]
fn test_four_node_finality() {
    let config = test_config();
    let (engine, _graph, _ids) = genesis_graph(&config);
    let committed = engine.get_committed();
    assert!(committed.len() >= 3, "Expected at least 3 genesis events to commit, got {}", committed.len());
}

#[test]
fn test_commit_delay_not_bypassed_at_early_rounds() {
    let mut config = test_config();
    config.commit_delay_rounds = 3;
    let (engine, _graph, _ids) = genesis_graph(&config);
    assert!(engine.committed_count() <= 4, "Only genesis should be committable at round 0");
}

#[test]
fn processing_an_event_twice_returns_nothing_new() {
    let mut engine = new_engine(test_config());
    let (graph, events) = setup_graph_with_events();
    let event = graph.get(&events[0]).unwrap();
    engine.process_event(event, &graph).unwrap();
    let seen = engine.stats().total_tracked;
    let again = engine.process_event(event, &graph).unwrap();
    assert!(again.is_empty());
    assert_eq!(engine.stats().total_tracked, seen);
}

#[test]
fn committed_never_exceeds_tracked() {
    let mut engine = new_engine(test_config());
    let (graph, events) = setup_graph_with_events();
    for event_id in &events {
        let event = graph.get(event_id).unwrap();
        let _ = engine.process_event(event, &graph);
        let stats = engine.stats();
        assert!(stats.committed as usize <= stats.total_tracked);
    }
}

/// A store that keeps the snapshot in memory.
#[derive(Default)]
struct MemoryStore {
    state: Option<PersistedConsensusState>,
    round: u64,
}

fn copy_state(s: &PersistedConsensusState) -> PersistedConsensusState {
    PersistedConsensusState {
        current_round: s.current_round,
        round_seed: s.round_seed,
        committed_events: s.committed_events,
        last_finalized_round: s.last_finalized_round,
        active_validators: s.active_validators.clone(),
        equivocation_tracking: s.equivocation_tracking.clone(),
        first_event_for_sequence: s.first_event_for_sequence.clone(),
        version: s.version,
    }
}

impl ConsensusStore for MemoryStore {
    fn save_state(&mut self, state: &PersistedConsensusState) -> Result<(), ConsensusStoreError> {
        self.state = Some(copy_state(state));
        Ok(())
    }

    fn load_state(&self) -> Result<Option<PersistedConsensusState>, ConsensusStoreError> {
        Ok(self.state.as_ref().map(copy_state))
    }

    fn save_round(&mut self, round: u64) -> Result<(), ConsensusStoreError> {
        self.round = round;
        Ok(())
    }

    fn load_round(&self) -> Result<u64, ConsensusStoreError> {
        Ok(self.round)
    }
}

fn slashing() -> SlashingEngine {
    SlashingEngine::new_in_memory(DEFAULT_SLASH_THRESHOLD, DEFAULT_EJECTION_THRESHOLD)
}

#[test]
fn test_consensus_unsupported_version_rejected() {
    let mut store = MemoryStore::default();
    let bad_state = PersistedConsensusState {
        current_round: 10,
        round_seed: [1u8; 32],
        committed_events: 50,
        last_finalized_round: 8,
        active_validators: vec![cnode(1)],
        equivocation_tracking: vec![],
        first_event_for_sequence: vec![],
        version: 999,
    };
    store.save_state(&bad_state).unwrap();
    let result = ConsensusEngine::load_or_new(test_config(), &store, slashing());
    assert!(result.is_err());
}

#[test]
fn test_consensus_resume_from_persisted() {
    let config = test_config();
    let mut store = MemoryStore::default();
    let mut engine = new_engine(config);
    engine
        .restore_state(PersistedConsensusState {
            current_round: 100,
            round_seed: config.round_seed,
            committed_events: 500,
            last_finalized_round: 99,
            active_validators: vec![cnode(1), cnode(2)],
            equivocation_tracking: vec![],
            first_event_for_sequence: vec![],
            version: 2,
        })
        .unwrap();
    engine.persist_state(&mut store).unwrap();
    assert_eq!(store.load_round().unwrap(), 100);
    let engine2 = ConsensusEngine::load_or_new(config, &store, slashing()).unwrap();
    assert_eq!(engine2.current_round(), 100);
    assert_eq!(engine2.committed_count(), 500);
}

#[test]
fn test_consensus_persist_and_restore_round_seed() {
    let config = test_config();
    let mut store = MemoryStore::default();
    let mut engine = new_engine(config);
    engine.update_round_seed([42u8; 32]);
    engine
        .restore_state(PersistedConsensusState {
            current_round: 10,
            round_seed: [42u8; 32],
            committed_events: 0,
            last_finalized_round: 9,
            active_validators: vec![cnode(1)],
            equivocation_tracking: vec![],
            first_event_for_sequence: vec![],
            version: 1,
        })
        .unwrap();
    engine.persist_state(&mut store).unwrap();
    let saved = store.load_state().unwrap().unwrap();
    assert_eq!(saved.round_seed, [42u8; 32]);
    assert_eq!(saved.version, 2);
    let engine2 = ConsensusEngine::load_or_new(config, &store, slashing()).unwrap();
    assert_eq!(engine2.current_round(), 10);
    assert_eq!(engine2.snapshot_state().round_seed, [42u8; 32]);
}

#[test]
fn test_consensus_load_or_new_without_persisted_state() {
    let store = MemoryStore::default();
    let engine = ConsensusEngine::load_or_new(test_config(), &store, slashing()).unwrap();
    assert_eq!(engine.current_round(), 0);
    assert_eq!(engine.committed_count(), 0);
}

#[test]
fn failed_load_starts_fresh() {
    let loaded: Result<Option<PersistedConsensusState>, ConsensusStoreError> =
        Err(ConsensusStoreError::Database(String::from("unreadable")));
    let engine = ConsensusEngine::from_loaded(test_config(), slashing(), loaded).unwrap();
    assert_eq!(engine.current_round(), 0);
    assert_eq!(engine.committed_count(), 0);
}

#[test]
fn test_round_timer_timeout_detection() {
    let mut timer = RoundTimer::new(Duration::from_millis(100), 3);
    timer.start_round(1);
    assert!(!timer.is_timed_out_after(&Duration::from_millis(50)));
    assert!(timer.is_timed_out_after(&Duration::from_millis(150)));
}

#[test]
fn test_round_timer_success_resets_consecutive() {
    let mut timer = RoundTimer::new(Duration::from_millis(100), 3);
    timer.start_round(1);
    timer.round_timed_out();
    timer.round_timed_out();
    assert_eq!(timer.effective_timeout(), Duration::from_millis(100));
    timer.round_succeeded();
    assert_eq!(timer.effective_timeout(), Duration::from_millis(100));
    timer.round_timed_out();
    timer.round_timed_out();
    assert_eq!(timer.effective_timeout(), Duration::from_millis(100));
    let in_recovery = timer.round_timed_out();
    assert!(in_recovery);
    assert_eq!(timer.effective_timeout(), Duration::from_millis(50));
}

#[test]
fn test_recovery_mode_halved_timeout() {
    let mut timer = RoundTimer::new(Duration::from_millis(100), 3);
    timer.start_round(1);
    timer.round_timed_out();
    timer.round_timed_out();
    let in_recovery = timer.round_timed_out();
    assert!(in_recovery);
    assert_eq!(timer.effective_timeout(), Duration::from_millis(50));
}

#[test]
fn test_no_timeout_before_deadline() {
    let timer = RoundTimer::new(Duration::from_secs(30), 3);
    assert!(!timer.is_timed_out());
}

#[test]
fn test_cleanup_old_committed_removes_old_events() {
    let config = test_config();
    let (mut engine, _graph, ids) = genesis_graph(&config);
    let committed = engine.get_committed();
    if !committed.is_empty() {
        let count = engine.committed_count();
        engine
            .restore_state(PersistedConsensusState {
                current_round: 20_001,
                round_seed: config.round_seed,
                committed_events: count,
                last_finalized_round: 20_000,
                active_validators: vec![cnode(0), cnode(1), cnode(2), cnode(3)],
                equivocation_tracking: vec![],
                first_event_for_sequence: vec![],
                version: 1,
            })
            .unwrap();
        let removed = engine.cleanup_old_committed(Some(10_000));
        assert!(removed >= 1, "Should remove at least 1 old committed event");
        assert!(ids.iter().any(|id| engine.get_state(id).is_none()));
    }
}

#[test]
fn test_cleanup_old_committed_noop_when_rounds_low() {
    let mut engine = new_engine(test_config());
    assert_eq!(engine.cleanup_old_committed(None), 0);
}

#[test]
fn test_cleanup_stale_sequences_keeps_recent_entries() {
    let mut engine = new_engine(test_config());
    let n1 = cnode(1);
    let pairs: Vec<((NodeId, u64), EventId)> = (95..100u64).map(|s| ((n1, s), [s as u8; 32])).collect();
    engine
        .restore_state(PersistedConsensusState {
            current_round: 0,
            round_seed: [1u8; 32],
            committed_events: 0,
            last_finalized_round: 0,
            active_validators: vec![],
            equivocation_tracking: vec![],
            first_event_for_sequence: pairs,
            version: 2,
        })
        .unwrap();
    // No node information for the creator: nothing is stale.
    assert_eq!(engine.cleanup_stale_sequences(Some(100)), 0);
    assert_eq!(engine.snapshot_state().first_event_for_sequence.len(), 5);
}

#[test]
fn committed_count_matches_the_committed_listing() {
    let config = test_config();
    let mut engine = new_engine(config);
    let (graph, events) = setup_graph_with_events();
    for event_id in &events {
        let event = graph.get(event_id).unwrap();
        let _ = engine.process_event(event, &graph);
        engine.record_acknowledgment(*event_id);
        let stats = engine.stats();
        assert_eq!(stats.committed as usize, engine.get_committed().len());
        assert!(stats.committed as usize <= stats.total_tracked);
    }
    let (genesis_engine, _graph, _ids) = genesis_graph(&config);
    assert_eq!(genesis_engine.stats().committed as usize, genesis_engine.get_committed().len());
}

#[test]
fn four_genesis_events_commit_once_the_third_arrives() {
    let mut engine = new_engine(test_config());
    let mut graph = CausalGraph::new();
    let mut ids = Vec::new();
    for i in 0..4u8 {
        let e = Event::genesis(cnode(i), vec![i]);
        ids.push(e.id);
        graph.insert(e).unwrap();
    }
    let first = engine.process_event(graph.get(&ids[0]).unwrap(), &graph).unwrap();
    assert!(first.is_empty());
    let second = engine.process_event(graph.get(&ids[1]).unwrap(), &graph).unwrap();
    assert!(second.is_empty());
    let mut third = engine.process_event(graph.get(&ids[2]).unwrap(), &graph).unwrap();
    third.sort();
    let mut expected = vec![ids[0], ids[1], ids[2]];
    expected.sort();
    assert_eq!(third, expected);
    let fourth = engine.process_event(graph.get(&ids[3]).unwrap(), &graph).unwrap();
    assert_eq!(fourth, vec![ids[3]]);
    assert_eq!(engine.committed_count(), 4);
    for id in &ids {
        assert!(engine.is_committed(id));
        assert_eq!(engine.get_round(id), Some(0));
    }
}

#[test]
fn committed_events_bring_their_uncommitted_ancestors() {
    let mut engine = new_engine(test_config());
    let (graph, events) = setup_graph_with_events();
    for event_id in &events {
        let event = graph.get(event_id).unwrap();
        let _ = engine.process_event(event, &graph);
    }
    for id in engine.get_committed() {
        if let Ok(ancestors) = graph.get_ancestors(&id) {
            for a in ancestors {
                if engine.get_state(&a).is_some() {
                    assert!(engine.is_committed(&a));
                }
            }
        }
    }
}
