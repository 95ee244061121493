use omnia_consensus::causal_graph::CausalGraphError;
use omnia_consensus::event::Event;
use omnia_consensus::event::EventStatus;
use omnia_consensus::ids::NodeId;
use omnia_consensus::pruning_aware_pool::PruningAwarePool;
use omnia_consensus::vector_clock::VectorClock;
use std::sync::atomic::AtomicU64;

fn test_node(id: u8) -> NodeId {
    let mut node = [0u8; 32];
    node[0] = id;
    node
}

static EVENT_COUNTER: AtomicU64 = AtomicU64::new(0);

fn make_event(creator: NodeId, seq: u64) -> Event {
    let mut vc = VectorClock::new();
    vc.set(creator, seq + 1);
    let counter = EVENT_COUNTER.fetch_add(1, std::sync::atomic::Ordering::Relaxed);
    let payload = counter.to_le_bytes().to_vec();
    Event::new(creator, seq, None, None, vc, 0, payload)
}

#[test]
fn pruning_aware_pool_test_insert_and_get() {
    let mut pool = PruningAwarePool::new(64, 10_000);
    let creator = test_node(1);
    let event = make_event(creator, 0);
    let event_id = event.id;
    pool.insert(event).expect("insert should succeed");
    assert_eq!(pool.len(), 1);
    let retrieved = pool.get(&event_id).expect("get should succeed");
    assert_eq!(retrieved.creator, creator);
}

#[test]
fn test_get_pruned_event() {
    let mut pool = PruningAwarePool::new(64, 10_000);
    let creator = test_node(1);
    let event = make_event(creator, 0);
    let event_id = event.id;
    pool.insert(event).expect("insert should succeed");
    pool.mark_finalized(&event_id, 1).expect("finalize should succeed");
    let pruned = pool.prune_finalized(100, 10);
    assert_eq!(pruned, 1);
    assert!(pool.is_pruned(&event_id));
    assert!(pool.get(&event_id).is_err());
    let result = pool.get(&event_id);
    assert!(matches!(result, Err(CausalGraphError::EventPruned(_))));
}

#[test]
fn test_resolve_parent() {
    let mut pool = PruningAwarePool::new(64, 10_000);
    let creator = test_node(1);
    let event = make_event(creator, 5);
    pool.insert(event).expect("insert should succeed");
    let parent = pool.resolve_parent(&creator, 5);
    assert!(parent.is_some());
    assert_eq!(parent.expect("parent").creator, creator);
    assert_eq!(parent.expect("parent").sequence, 5);
}

#[test]
fn test_resolve_parent_checked() {
    let mut pool = PruningAwarePool::new(64, 10_000);
    let creator = test_node(1);
    let result = pool.resolve_parent_checked(&creator, 0);
    assert!(matches!(result, Err(CausalGraphError::InvalidEvent(_))));
    let event = make_event(creator, 0);
    pool.insert(event).expect("insert should succeed");
    let result = pool.resolve_parent_checked(&creator, 0);
    assert!(result.is_ok());
    let event2 = make_event(creator, 1);
    let event2_id = event2.id;
    pool.insert(event2).expect("insert should succeed");
    pool.mark_finalized(&event2_id, 1).expect("finalize should succeed");
    pool.prune_finalized(100, 10);
    let result = pool.resolve_parent_checked(&creator, 1);
    assert!(matches!(result, Err(CausalGraphError::EventPruned(_))));
}

#[test]
fn test_mark_finalized() {
    let mut pool = PruningAwarePool::new(64, 10_000);
    let creator = test_node(1);
    let event = make_event(creator, 0);
    let event_id = event.id;
    pool.insert(event).expect("insert should succeed");
    pool.mark_finalized(&event_id, 5).expect("finalize should succeed");
    let retrieved = pool.get(&event_id).expect("get should succeed");
    assert_eq!(retrieved.status, EventStatus::Finalized);
    let stats = pool.stats();
    assert_eq!(stats.finalized_count, 1);
}

#[test]
fn test_mark_finalized_pruned_event() {
    let mut pool = PruningAwarePool::new(64, 10_000);
    let creator = test_node(1);
    let event = make_event(creator, 0);
    let event_id = event.id;
    pool.insert(event).expect("insert should succeed");
    pool.mark_finalized(&event_id, 1).expect("finalize should succeed");
    pool.prune_finalized(100, 10);
    let result = pool.mark_finalized(&event_id, 2);
    assert!(matches!(result, Err(CausalGraphError::EventPruned(_))));
}

#[test]
fn pruning_aware_pool_test_prune_finalized_archive_mode() {
    let mut pool = PruningAwarePool::new(64, 10_000);
    let creator = test_node(1);
    let event = make_event(creator, 0);
    let event_id = event.id;
    pool.insert(event).expect("insert should succeed");
    pool.mark_finalized(&event_id, 1).expect("finalize should succeed");
    let pruned = pool.prune_finalized(100, 0);
    assert_eq!(pruned, 0);
    assert!(!pool.is_pruned(&event_id));
}

#[test]
fn test_prune_finalized_selective() {
    let mut pool = PruningAwarePool::new(64, 10_000);
    let creator = test_node(1);
    let event1 = make_event(creator, 0);
    let event1_id = event1.id;
    pool.insert(event1).expect("insert should succeed");
    pool.mark_finalized(&event1_id, 5).expect("finalize should succeed");
    let event2 = make_event(test_node(2), 0);
    let event2_id = event2.id;
    pool.insert(event2).expect("insert should succeed");
    pool.mark_finalized(&event2_id, 50).expect("finalize should succeed");
    let pruned = pool.prune_finalized(50, 20);
    assert_eq!(pruned, 1);
    assert!(pool.is_pruned(&event1_id));
    assert!(!pool.is_pruned(&event2_id));
    let result = pool.get(&event2_id);
    assert!(result.is_ok());
}

#[test]
fn test_slot_reuse_after_pruning() {
    let mut pool = PruningAwarePool::new(4, 100);
    let creator = test_node(1);
    for i in 0..4 {
        let event = make_event(creator, i);
        pool.insert(event).expect("insert should succeed");
    }
    assert_eq!(pool.free_count(), 0);
    pool = PruningAwarePool::new(4, 100);
    let event1 = make_event(creator, 0);
    let event1_id = event1.id;
    pool.insert(event1).expect("insert should succeed");
    let event2 = make_event(test_node(2), 0);
    let event2_id = event2.id;
    pool.insert(event2).expect("insert should succeed");
    pool.mark_finalized(&event1_id, 1).expect("finalize should succeed");
    pool.mark_finalized(&event2_id, 1).expect("finalize should succeed");
    let pruned = pool.prune_finalized(100, 10);
    assert_eq!(pruned, 2);
    assert!(pool.free_count() >= 2);
    let event3 = make_event(test_node(3), 0);
    pool.insert(event3).expect("insert should reuse free slot");
}

#[test]
fn test_get_pruned_metadata() {
    let mut pool = PruningAwarePool::new(64, 10_000);
    let creator = test_node(1);
    let event = make_event(creator, 42);
    let event_id = event.id;
    pool.insert(event).expect("insert should succeed");
    pool.mark_finalized(&event_id, 10).expect("finalize should succeed");
    pool.prune_finalized(100, 10);
    let metadata = pool.get_pruned_metadata(&event_id);
    assert!(metadata.is_some());
    let meta = metadata.expect("metadata should exist");
    assert_eq!(meta.creator, creator);
    assert_eq!(meta.sequence, 42);
    assert_eq!(meta.finalized_round, 10);
}

#[test]
fn pruning_aware_pool_test_stats() {
    let mut pool = PruningAwarePool::new(64, 10_000);
    let creator = test_node(1);
    for i in 0..5 {
        let event = make_event(creator, i);
        pool.insert(event).expect("insert should succeed");
    }
    let stats = pool.stats();
    assert_eq!(stats.occupied_slots, 5);
    assert_eq!(stats.pool_capacity, 64);
    assert_eq!(stats.free_slots, 59);
    assert!(stats.indexed_creators >= 1);
    assert_eq!(stats.index_entries, 5);
    assert_eq!(stats.finalized_count, 0);
    assert_eq!(stats.pruned_count, 0);
}

#[test]
fn pruning_pool_rejects_unindexable_sequence() {
    let mut pool = PruningAwarePool::new(4, 4);
    let e = make_event(test_node(1), 2_000_000);
    let id = e.id;
    assert!(pool.insert(e).is_err());
    assert!(!pool.contains(&id));
    assert_eq!(pool.len(), 0);
}

#[test]
fn pruning_pool_finalizing_twice_counts_once() {
    let mut pool = PruningAwarePool::new(4, 4);
    let e = make_event(test_node(1), 0);
    let id = e.id;
    pool.insert(e).unwrap();
    pool.mark_finalized(&id, 1).unwrap();
    pool.mark_finalized(&id, 2).unwrap();
    assert_eq!(pool.stats().finalized_count, 1);
    let unknown = [9u8; 32];
    assert!(matches!(pool.mark_finalized(&unknown, 1), Err(CausalGraphError::InvalidEvent(_))));
}

#[test]
fn pruning_frees_one_slot_per_event_and_keeps_the_capacity() {
    let mut pool = PruningAwarePool::new(8, 8);
    let mut ids = Vec::new();
    for n in 1..=4u8 {
        let event = make_event(test_node(n), 0);
        ids.push(event.id);
        pool.insert(event).expect("insert should succeed");
    }
    pool.mark_finalized(&ids[0], 1).expect("finalize should succeed");
    pool.mark_finalized(&ids[1], 2).expect("finalize should succeed");
    pool.mark_finalized(&ids[2], 40).expect("finalize should succeed");
    let capacity = pool.capacity();
    let free = pool.free_count();
    let len = pool.len();
    assert_eq!(pool.prune_finalized(30, 10), 2);
    assert_eq!(pool.capacity(), capacity);
    assert_eq!(pool.free_count(), free + 2);
    assert_eq!(pool.len(), len - 2);
    assert!(pool.is_pruned(&ids[0]) && pool.is_pruned(&ids[1]));
    assert!(!pool.is_pruned(&ids[2]) && !pool.is_pruned(&ids[3]));
}
