use omnia_consensus::event::Event;
use omnia_consensus::event_pool::EventPool;
use omnia_consensus::event_pool::EventPoolError;
use omnia_consensus::ids::EventId;
use omnia_consensus::ids::NodeId;
use omnia_consensus::vector_clock::VectorClock;

fn test_node(id: u8) -> NodeId {
    let mut node = [0u8; 32];
    node[0] = id;
    node
}

fn make_event(creator: NodeId, seq: u64) -> Event {
    let mut vc = VectorClock::new();
    vc.set(creator, seq + 1);
    Event::new(creator, seq, None, None, vc, 0, vec![])
}

#[test]
fn test_pool_creation() {
    let pool = EventPool::new(16, 1024);
    assert_eq!(pool.len(), 0);
    assert_eq!(pool.capacity(), 16);
    assert_eq!(pool.free_count(), 16);
    assert!(pool.is_empty());
    assert!(pool.is_at_steady_state());
}

#[test]
fn event_pool_test_insert_and_get() {
    let mut pool = EventPool::new(16, 1024);
    let node = test_node(1);
    let event = make_event(node, 0);
    let event_id = event.id;
    let slot = pool.insert(event).expect("insert should succeed");
    assert_eq!(pool.len(), 1);
    assert!(pool.contains(&event_id));
    let retrieved = pool.get(&event_id).expect("event should be found");
    assert_eq!(retrieved.creator, node);
    assert_eq!(retrieved.sequence, 0);
    let retrieved_by_slot = pool.get_by_slot(slot).expect("event should be found by slot");
    assert_eq!(retrieved_by_slot.creator, node);
}

#[test]
fn test_insert_duplicate() {
    let mut pool = EventPool::new(16, 1024);
    let node = test_node(1);
    let event = make_event(node, 0);
    let event2 = event.duplicate();
    pool.insert(event).expect("first insert should succeed");
    let result = pool.insert(event2);
    assert!(matches!(result, Err(EventPoolError::DuplicateEvent(_))));
}

#[test]
fn test_remove() {
    let mut pool = EventPool::new(16, 1024);
    let node = test_node(1);
    let event = make_event(node, 0);
    let event_id = event.id;
    pool.insert(event).expect("insert should succeed");
    assert_eq!(pool.len(), 1);
    let removed = pool.remove(&event_id).expect("remove should return event");
    assert_eq!(removed.creator, node);
    assert_eq!(pool.len(), 0);
    assert!(!pool.contains(&event_id));
    assert_eq!(pool.free_count(), 16);
}

#[test]
fn test_slot_of() {
    let mut pool = EventPool::new(16, 1024);
    let node = test_node(1);
    let event = make_event(node, 0);
    let event_id = event.id;
    let slot = pool.insert(event).expect("insert should succeed");
    assert_eq!(pool.slot_of(&event_id), Some(slot));
}

#[test]
fn test_pool_growth() {
    let mut pool = EventPool::new(4, 100);
    let node = test_node(1);
    for i in 0..4 {
        let event = make_event(node, i);
        pool.insert(event).expect("insert should succeed");
    }
    assert_eq!(pool.len(), 4);
    assert_eq!(pool.free_count(), 0);
    assert!(!pool.is_at_steady_state());
    let event = make_event(test_node(2), 0);
    pool.insert(event).expect("insert after growth should succeed");
    assert!(pool.capacity() > 4);
    assert_eq!(pool.stats().growth_count, 1);
}

#[test]
fn test_pool_full() {
    let mut pool = EventPool::new(4, 4);
    let node = test_node(1);
    for i in 0..4 {
        let event = make_event(node, i);
        pool.insert(event).expect("insert should succeed");
    }
    let event = make_event(test_node(2), 0);
    let result = pool.insert(event);
    assert!(matches!(result, Err(EventPoolError::PoolFull(4, 4))));
}

#[test]
fn test_free_slot_reuse() {
    let mut pool = EventPool::new(4, 4);
    let node = test_node(1);
    let event1 = make_event(node, 0);
    let event1_id = event1.id;
    pool.insert(event1).expect("insert should succeed");
    let event2 = make_event(test_node(2), 0);
    let event2_id = event2.id;
    pool.insert(event2).expect("insert should succeed");
    pool.remove(&event1_id).expect("remove should succeed");
    assert_eq!(pool.free_count(), 3);
    let event3 = make_event(test_node(3), 0);
    let event3_id = event3.id;
    pool.insert(event3).expect("insert should reuse free slot");
    assert_eq!(pool.len(), 2);
    assert!(!pool.contains(&event1_id));
    assert!(pool.contains(&event2_id));
    assert!(pool.contains(&event3_id));
}

#[test]
fn event_pool_test_stats() {
    let mut pool = EventPool::new(16, 1024);
    let node = test_node(1);
    for i in 0..5 {
        let event = make_event(node, i);
        pool.insert(event).expect("insert should succeed");
    }
    let stats = pool.stats();
    assert_eq!(stats.total_capacity, 16);
    assert_eq!(stats.occupied, 5);
    assert_eq!(stats.free, 11);
    let utilization = stats.occupied as f64 / stats.total_capacity as f64;
    assert!((utilization - 5.0 / 16.0).abs() < 0.001);
    assert_eq!(stats.growth_count, 0);
}

#[test]
fn test_steady_state() {
    let mut pool = EventPool::new(16, 1024);
    assert!(pool.is_at_steady_state());
    let node = test_node(1);
    let mut first: Option<EventId> = None;
    for i in 0..16 {
        let event = make_event(node, i);
        if first.is_none() {
            first = Some(event.id);
        }
        pool.insert(event).expect("insert should succeed");
    }
    assert!(!pool.is_at_steady_state());
    if let Some(id) = first {
        pool.remove(&id);
        assert!(pool.is_at_steady_state());
    }
}

#[test]
fn test_10k_events_insertion() {
    let mut pool = EventPool::new(1024, 50_000);
    for i in 0..10_000u64 {
        let creator = test_node(((i % 100) + 1) as u8);
        let event = make_event(creator, i / 100);
        pool.insert(event).unwrap_or_else(|e| panic!("insertion failed at event {i}: {}", e.message()));
    }
    assert_eq!(pool.len(), 10_000);
    let stats = pool.stats();
    assert!(stats.total_capacity >= 10_000);
}

#[test]
fn test_memory_leak_detection() {
    let mut pool = EventPool::new(256, 10_000);
    let mut ids: Vec<EventId> = Vec::new();
    for i in 0..1000u64 {
        let creator = test_node(((i % 10) + 1) as u8);
        let event = make_event(creator, i / 10);
        ids.push(event.id);
        pool.insert(event).expect("insert should succeed");
    }
    assert_eq!(pool.len(), 1000);
    for id in &ids {
        pool.remove(id).expect("remove should succeed");
    }
    assert_eq!(pool.len(), 0);
    assert!(pool.is_empty());
    assert_eq!(pool.free_count(), pool.capacity());
}

#[test]
fn test_interleaved_insert_remove() {
    let mut pool = EventPool::new(64, 10_000);
    let mut active_ids: Vec<EventId> = Vec::new();
    for round in 0..50u64 {
        for j in 0..20u64 {
            let creator = test_node(((round * 20 + j) % 100 + 1) as u8);
            let event = make_event(creator, round * 20 + j);
            active_ids.push(event.id);
            pool.insert(event).expect("insert should succeed");
        }
        for _ in 0..10 {
            if let Some(id) = active_ids.first().copied() {
                pool.remove(&id).expect("remove should succeed");
                active_ids.remove(0);
            }
        }
    }
    assert_eq!(pool.len(), 500);
    assert_eq!(active_ids.len(), 500);
    for id in &active_ids {
        assert!(pool.contains(id), "active event should still be in pool");
    }
}

#[test]
fn test_growth_and_free_list_integrity() {
    let mut pool = EventPool::new(8, 10_000);
    let mut all_ids: Vec<EventId> = Vec::new();
    for i in 0..100u64 {
        let creator = test_node((i % 5 + 1) as u8);
        let event = make_event(creator, i);
        all_ids.push(event.id);
        pool.insert(event).expect("insert should succeed");
    }
    assert!(pool.capacity() > 8, "pool should have grown");
    let growth_count = pool.stats().growth_count;
    assert!(growth_count > 0, "pool should have grown at least once");
    for id in all_ids.iter().step_by(2) {
        pool.remove(id).expect("remove should succeed");
    }
    assert_eq!(pool.len(), 50);
    for i in 200..250u64 {
        let creator = test_node((i % 5 + 1) as u8);
        let event = make_event(creator, i);
        pool.insert(event).expect("insert should reuse free slots");
    }
    assert_eq!(pool.stats().growth_count, growth_count, "pool should not grow when free slots are available");
}

#[test]
fn test_free_list_integrity() {
    let mut pool = EventPool::new(32, 10_000);
    let mut ids: Vec<EventId> = Vec::new();
    for i in 0..32u64 {
        let creator = test_node(1);
        let event = make_event(creator, i);
        ids.push(event.id);
        pool.insert(event).expect("insert should succeed");
    }
    assert_eq!(pool.free_count(), 0);
    let mut removed_ids: Vec<EventId> = Vec::new();
    for (idx, id) in ids.iter().enumerate() {
        if idx % 2 == 0 {
            pool.remove(id).expect("remove should succeed");
            removed_ids.push(*id);
        }
    }
    assert_eq!(pool.len(), 16);
    assert_eq!(pool.free_count(), 16);
    for i in 100..116u64 {
        let creator = test_node(2);
        let event = make_event(creator, i);
        pool.insert(event).expect("insert should use free slot");
    }
    assert_eq!(pool.len(), 32);
    assert_eq!(pool.free_count(), 0);
    for id in &removed_ids {
        assert!(!pool.contains(id), "removed event should not be in pool");
    }
}

#[test]
fn pool_freed_slot_is_reused_first() {
    let mut pool = EventPool::new(4, 4);
    let e1 = make_event(test_node(1), 0);
    let id1 = e1.id;
    let s1 = pool.insert(e1).unwrap();
    pool.insert(make_event(test_node(2), 0)).unwrap();
    pool.remove(&id1).unwrap();
    let s3 = pool.insert(make_event(test_node(3), 0)).unwrap();
    assert_eq!(s1, s3);
}

#[test]
fn pool_growth_amount_is_one_and_a_half_initial() {
    let mut pool = EventPool::new(4, 100);
    for i in 0..5 {
        pool.insert(make_event(test_node(1), i)).unwrap();
    }
    // 4 initial slots, then 4 + 2 more.
    assert_eq!(pool.capacity(), 10);
    let mut small = EventPool::new(1, 100);
    small.insert(make_event(test_node(1), 0)).unwrap();
    small.insert(make_event(test_node(1), 1)).unwrap();
    // floor(1 * 1.5) = 1 more slot.
    assert_eq!(small.capacity(), 2);
    let mut capped = EventPool::new(4, 6);
    for i in 0..5 {
        capped.insert(make_event(test_node(1), i)).unwrap();
    }
    assert_eq!(capped.capacity(), 6);
}

#[test]
fn pool_get_by_slot_out_of_range_and_free() {
    let mut pool = EventPool::new(2, 2);
    assert!(pool.get_by_slot(5).is_none());
    assert!(pool.get_by_slot(0).is_none());
    let s = pool.insert(make_event(test_node(1), 0)).unwrap();
    assert!(pool.get_by_slot(s).is_some());
}

#[test]
fn a_full_pool_keeps_every_slot_and_each_slot_holds_its_event() {
    let mut pool = EventPool::new(4, 4);
    let mut placed = Vec::new();
    for i in 0..4 {
        let event = make_event(test_node(1), i);
        let id = event.id;
        let slot = pool.insert(event).expect("insert should succeed");
        placed.push((id, slot));
    }
    let result = pool.insert(make_event(test_node(2), 0));
    assert!(matches!(result, Err(EventPoolError::PoolFull(4, 4))));
    for (id, slot) in &placed {
        assert_eq!(pool.slot_of(id), Some(*slot));
        assert_eq!(pool.get_by_slot(*slot).map(|e| e.id), Some(*id));
    }
    let mut slots: Vec<usize> = placed.iter().map(|p| p.1).collect();
    slots.sort();
    slots.dedup();
    assert_eq!(slots.len(), 4);
}
