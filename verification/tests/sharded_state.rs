use omnia_consensus::consensus::ConsensusState;
use omnia_consensus::ids::EventId;
use omnia_consensus::ids::NodeId;
use omnia_consensus::sharded_state::ShardedConsensusState;
use omnia_consensus::sharded_state::NUM_SHARDS;

fn make_event_id(first_byte: u8) -> EventId {
    let mut id = [0u8; 32];
    id[0] = first_byte;
    id
}

fn make_node_id(id: u8) -> NodeId {
    let mut node = [0u8; 32];
    node[0] = id;
    node
}

#[test]
fn test_shard_index_distribution() {
    assert_eq!(ShardedConsensusState::shard_index(&make_event_id(0)), 0);
    assert_eq!(ShardedConsensusState::shard_index(&make_event_id(1)), 1);
    assert_eq!(ShardedConsensusState::shard_index(&make_event_id(255)), 255);
}

#[test]
fn test_insert_and_get_event_state() {
    let mut state = ShardedConsensusState::new();
    let event_id = make_event_id(42);
    assert!(state.get_event_state(&event_id).is_none());
    state.insert_event_state(event_id, ConsensusState::Pending);
    assert_eq!(state.get_event_state(&event_id), Some(ConsensusState::Pending));
    state.insert_event_state(event_id, ConsensusState::Committed);
    assert_eq!(state.get_event_state(&event_id), Some(ConsensusState::Committed));
}

#[test]
fn test_insert_and_get_event_round() {
    let mut state = ShardedConsensusState::new();
    let event_id = make_event_id(42);
    assert!(state.get_event_round(&event_id).is_none());
    state.insert_event_round(event_id, 7);
    assert_eq!(state.get_event_round(&event_id), Some(7));
}

#[test]
fn test_is_committed() {
    let mut state = ShardedConsensusState::new();
    let event_id = make_event_id(10);
    assert!(!state.is_committed(&event_id));
    state.insert_event_state(event_id, ConsensusState::Pending);
    assert!(!state.is_committed(&event_id));
    state.insert_event_state(event_id, ConsensusState::Committed);
    assert!(state.is_committed(&event_id));
}

#[test]
fn test_witness_recording() {
    let mut state = ShardedConsensusState::new();
    let e1 = make_event_id(1);
    let e2 = make_event_id(2);
    state.record_witness(0, e1);
    state.record_witness(0, e2);
    state.record_witness(1, e1);
    let witnesses_0 = state.get_witnesses_for_round(0);
    assert_eq!(witnesses_0.len(), 2);
    assert!(witnesses_0.contains(&e1));
    assert!(witnesses_0.contains(&e2));
    let witnesses_1 = state.get_witnesses_for_round(1);
    assert_eq!(witnesses_1.len(), 1);
    assert!(witnesses_1.contains(&e1));
    let witnesses_99 = state.get_witnesses_for_round(99);
    assert!(witnesses_99.is_empty());
}

#[test]
fn test_committed_count() {
    let mut state = ShardedConsensusState::new();
    assert_eq!(state.committed_count(), 0);
    state.increment_committed(5);
    assert_eq!(state.committed_count(), 5);
    state.increment_committed(3);
    assert_eq!(state.committed_count(), 8);
}

#[test]
fn test_node_info_update() {
    let mut state = ShardedConsensusState::new();
    let node_id = make_node_id(1);
    assert_eq!(state.get_node_round(&node_id), 0);
    state.update_node_info(node_id, |mut info| {
        info.current_round = 5;
        info.events_created = 10;
        info
    });
    assert_eq!(state.get_node_round(&node_id), 5);
}

#[test]
fn test_equivocation_tracking() {
    let mut state = ShardedConsensusState::new();
    let node_id = make_node_id(1);
    let event_id_1 = make_event_id(10);
    let event_id_2 = make_event_id(20);
    let key = (node_id, 0);
    state.record_first_sequence(key, event_id_1);
    assert_eq!(state.get_first_sequence(&key), Some(event_id_1));
    state.record_first_sequence(key, event_id_2);
    assert_eq!(state.get_first_sequence(&key), Some(event_id_1));
}

#[test]
fn test_stats_aggregation() {
    let mut state = ShardedConsensusState::new();
    for i in 0u8..10 {
        let event_id = make_event_id(i);
        state.insert_event_state(event_id, ConsensusState::Pending);
        state.insert_event_round(event_id, i as u64);
    }
    let stats = state.stats();
    assert_eq!(stats.total_tracked, 10);
    assert_eq!(stats.committed, 0);
    assert_eq!(stats.shard_loads.len(), NUM_SHARDS);
    for i in 0..10usize {
        assert_eq!(stats.shard_loads[i], 1);
    }
}

#[test]
fn test_fame_status() {
    let mut state = ShardedConsensusState::new();
    let event_id = make_event_id(42);
    assert!(state.get_fame_status(&event_id).is_none());
    state.insert_fame_status(event_id, true);
    assert_eq!(state.get_fame_status(&event_id), Some(true));
    state.insert_fame_status(event_id, false);
    assert_eq!(state.get_fame_status(&event_id), Some(false));
}

#[test]
fn test_contains_event() {
    let mut state = ShardedConsensusState::new();
    let event_id = make_event_id(42);
    assert!(!state.contains_event(&event_id));
    state.insert_event_state(event_id, ConsensusState::Pending);
    assert!(state.contains_event(&event_id));
}

#[test]
fn test_cleanup_old_committed() {
    let mut state = ShardedConsensusState::new();
    for i in 0u8..5 {
        let event_id = make_event_id(i);
        state.insert_event_state(event_id, ConsensusState::Committed);
        state.insert_event_round(event_id, 1);
    }
    let pending_id = make_event_id(200);
    state.insert_event_state(pending_id, ConsensusState::Pending);
    state.insert_event_round(pending_id, 1);
    let recent_id = make_event_id(100);
    state.insert_event_state(recent_id, ConsensusState::Committed);
    state.insert_event_round(recent_id, 100);
    let node_id = make_node_id(1);
    state.update_node_info(node_id, |mut info| {
        info.current_round = 100;
        info
    });
    let removed = state.cleanup_old_committed(50, 100);
    assert_eq!(removed, 5);
    assert!(state.is_committed(&recent_id));
    assert_eq!(state.get_event_state(&pending_id), Some(ConsensusState::Pending));
    let old_id = make_event_id(0);
    assert!(state.get_event_state(&old_id).is_none());
}

#[test]
fn sharded_cleanup_default_uses_current_round() {
    let mut state = ShardedConsensusState::default();
    let id = make_event_id(3);
    state.insert_event_state(id, ConsensusState::Committed);
    state.insert_event_round(id, 5);
    state.update_node_info(make_node_id(1), |mut info| {
        info.current_round = 20_000;
        info
    });
    state.update_node_info(make_node_id(2), |mut info| {
        info.current_round = 7;
        info
    });
    assert_eq!(state.current_round(), 20_000);
    assert_eq!(state.cleanup_old_committed_default(), 1);
    assert!(!state.contains_event(&id));
    assert_eq!(state.cleanup_old_committed(50, 40), 0);
}

#[test]
fn sharded_insert_if_absent_keeps_first() {
    let mut state = ShardedConsensusState::new();
    let id = make_event_id(9);
    assert!(state.insert_event_state_if_absent(id, ConsensusState::Pending));
    assert!(!state.insert_event_state_if_absent(id, ConsensusState::Committed));
    assert_eq!(state.get_event_state(&id), Some(ConsensusState::Pending));
}

#[test]
fn test_shard_consistency_event_states_and_rounds() {
    let mut state = ShardedConsensusState::new();
    for i in 0u8..50 {
        let event_id = make_event_id(i);
        state.insert_event_state(event_id, ConsensusState::Witness { round: i as u64 });
        state.insert_event_round(event_id, i as u64);
        let evt_state = state.get_event_state(&event_id);
        let evt_round = state.get_event_round(&event_id);
        assert!(evt_state.is_some(), "Event state should exist for shard {}", i);
        assert!(evt_round.is_some(), "Event round should exist for shard {}", i);
        if let Some(ConsensusState::Witness { round }) = evt_state {
            assert_eq!(round, i as u64);
        } else {
            panic!("Expected Witness state, got {:?}", evt_state);
        }
        assert_eq!(evt_round, Some(i as u64));
    }
}
