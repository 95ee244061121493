use omnia_consensus::ids::EventId;
use omnia_consensus::ids::NodeId;
use omnia_consensus::vector_clock_index::VectorClockIndex;
use omnia_consensus::vector_clock_index::VectorClockIndexError;
use omnia_consensus::vector_clock_index::MAX_SEQUENCE;

fn test_node(id: u8) -> NodeId {
    let mut node = [0u8; 32];
    node[0] = id;
    node
}

fn test_event_id(id: u8) -> EventId {
    let mut eid = [0u8; 32];
    eid[0] = id;
    eid
}

#[test]
fn test_index_and_resolve() {
    let mut index = VectorClockIndex::new();
    let creator = test_node(1);
    let event_id = test_event_id(42);
    index.index_event(&creator, 0, 5, event_id).unwrap();
    let result = index.resolve_parent(&creator, 0);
    assert_eq!(result, Some((event_id, 5)));
}

#[test]
fn test_resolve_missing() {
    let index = VectorClockIndex::new();
    let creator = test_node(1);
    assert_eq!(index.resolve_parent(&creator, 0), None);
}

#[test]
fn test_multiple_sequences() {
    let mut index = VectorClockIndex::new();
    let creator = test_node(1);
    for seq in 0..5u64 {
        let mut eid = [0u8; 32];
        eid[0] = seq as u8;
        index.index_event(&creator, seq, seq as usize * 10, eid).unwrap();
    }
    for seq in 0..5u64 {
        let mut eid = [0u8; 32];
        eid[0] = seq as u8;
        let result = index.resolve_parent(&creator, seq);
        assert_eq!(result, Some((eid, seq as usize * 10)));
    }
    assert_eq!(index.resolve_parent(&creator, 5), None);
}

#[test]
fn test_multiple_creators() {
    let mut index = VectorClockIndex::new();
    let creator_a = test_node(1);
    let creator_b = test_node(2);
    index.index_event(&creator_a, 0, 0, test_event_id(1)).unwrap();
    index.index_event(&creator_b, 0, 1, test_event_id(2)).unwrap();
    index.index_event(&creator_a, 1, 2, test_event_id(3)).unwrap();
    assert_eq!(index.resolve_parent(&creator_a, 0), Some((test_event_id(1), 0)));
    assert_eq!(index.resolve_parent(&creator_b, 0), Some((test_event_id(2), 1)));
    assert_eq!(index.resolve_parent(&creator_a, 1), Some((test_event_id(3), 2)));
}

#[test]
fn test_remove_by_slot() {
    let mut index = VectorClockIndex::new();
    let creator = test_node(1);
    index.index_event(&creator, 0, 5, test_event_id(42)).unwrap();
    assert_eq!(index.resolve_parent(&creator, 0), Some((test_event_id(42), 5)));
    let removed = index.remove_event(5);
    assert_eq!(removed, Some(test_event_id(42)));
    assert_eq!(index.resolve_parent(&creator, 0), None);
}

#[test]
fn test_remove_by_creator_sequence() {
    let mut index = VectorClockIndex::new();
    let creator = test_node(1);
    index.index_event(&creator, 0, 5, test_event_id(42)).unwrap();
    index.index_event(&creator, 1, 6, test_event_id(43)).unwrap();
    let slot = index.remove_by_creator_sequence(&creator, 0);
    assert_eq!(slot, Some(5));
    assert_eq!(index.resolve_parent(&creator, 0), None);
    assert_eq!(index.resolve_parent(&creator, 1), Some((test_event_id(43), 6)));
}

#[test]
fn test_contains() {
    let mut index = VectorClockIndex::new();
    let creator = test_node(1);
    assert!(!index.contains(&creator, 0));
    index.index_event(&creator, 0, 5, test_event_id(42)).unwrap();
    assert!(index.contains(&creator, 0));
}

#[test]
fn test_max_sequence() {
    let mut index = VectorClockIndex::new();
    let creator = test_node(1);
    assert_eq!(index.max_sequence(&creator), None);
    index.index_event(&creator, 0, 0, test_event_id(1)).unwrap();
    assert_eq!(index.max_sequence(&creator), Some(0));
    index.index_event(&creator, 3, 1, test_event_id(2)).unwrap();
    assert_eq!(index.max_sequence(&creator), Some(3));
    index.index_event(&creator, 7, 2, test_event_id(3)).unwrap();
    assert_eq!(index.max_sequence(&creator), Some(7));
}

#[test]
fn vector_clock_index_test_stats() {
    let mut index = VectorClockIndex::with_capacity(10, 100);
    let creator_a = test_node(1);
    let creator_b = test_node(2);
    index.index_event(&creator_a, 0, 0, test_event_id(1)).unwrap();
    index.index_event(&creator_a, 1, 1, test_event_id(2)).unwrap();
    index.index_event(&creator_b, 0, 2, test_event_id(3)).unwrap();
    let stats = index.stats();
    assert_eq!(stats.creator_count, 2);
    assert_eq!(stats.total_entries, 3);
    assert_eq!(stats.slot_mappings, 3);
    assert!(stats.approx_memory_bytes > 0);
}

#[test]
fn test_resolve_slot() {
    let mut index = VectorClockIndex::new();
    let creator = test_node(1);
    index.index_event(&creator, 5, 42, test_event_id(1)).unwrap();
    assert_eq!(index.resolve_slot(&creator, 5), Some(42));
    assert_eq!(index.resolve_slot(&creator, 0), None);
}

#[test]
fn test_high_sequence_numbers() {
    let mut index = VectorClockIndex::new();
    let creator = test_node(1);
    index.index_event(&creator, 1000, 0, test_event_id(1)).unwrap();
    assert_eq!(index.resolve_parent(&creator, 1000), Some((test_event_id(1), 0)));
    assert_eq!(index.resolve_parent(&creator, 0), None);
    assert_eq!(index.resolve_parent(&creator, 999), None);
}

#[test]
fn test_sequence_too_large() {
    let mut index = VectorClockIndex::new();
    let creator = test_node(1);
    let result = index.index_event(&creator, MAX_SEQUENCE + 1, 0, test_event_id(1));
    assert!(result.is_err());
    match result.unwrap_err() {
        VectorClockIndexError::SequenceTooLarge { creator: c, sequence, max } => {
            assert_eq!(c, creator);
            assert_eq!(sequence, MAX_SEQUENCE + 1);
            assert_eq!(max, MAX_SEQUENCE);
        }
    }
    let result = index.index_event(&creator, MAX_SEQUENCE, 0, test_event_id(2));
    assert!(result.is_ok());
}

#[test]
fn vci_removed_slot_keeps_forward_entry_stale() {
    let mut index = VectorClockIndex::new();
    let creator = test_node(3);
    index.index_event(&creator, 2, 9, test_event_id(7)).unwrap();
    assert_eq!(index.remove_event(9), Some(test_event_id(7)));
    assert_eq!(index.resolve_slot(&creator, 2), Some(9));
    assert!(!index.contains(&creator, 2));
    assert_eq!(index.remove_event(100), None);
}
