use omnia_consensus::batch_crdt_merge::BatchCrdtError;
use omnia_consensus::batch_crdt_merge::BatchCrdtMerger;
use omnia_consensus::batch_crdt_merge::CrdtBatchOp;
use omnia_consensus::ids::NodeId;

fn node(id: u8) -> NodeId {
    let mut n = [0u8; 32];
    n[0] = id;
    n
}

#[test]
fn test_gcounter_increment_batch() {
    let mut merger = BatchCrdtMerger::new();
    let ops = vec![
        CrdtBatchOp::GCounterIncrement { key: "balance:alice".to_string(), node_id: node(1), amount: 100 },
        CrdtBatchOp::GCounterIncrement { key: "balance:alice".to_string(), node_id: node(2), amount: 50 },
        CrdtBatchOp::GCounterIncrement { key: "balance:bob".to_string(), node_id: node(1), amount: 200 },
    ];
    let result = merger.apply_batch(&ops).unwrap();
    assert_eq!(result.applied_count, 3);
    assert_eq!(result.modified_count, 2);
    assert!(result.atomic);
    assert_eq!(merger.g_counter_value("balance:alice"), 150);
    assert_eq!(merger.g_counter_value("balance:bob"), 200);
    assert_eq!(merger.g_counter_value("balance:charlie"), 0);
}

#[test]
fn test_or_set_batch() {
    let mut merger = BatchCrdtMerger::new();
    let ops = vec![
        CrdtBatchOp::OrSetAdd { key: "members".to_string(), node_id: node(1), element: b"alice".to_vec() },
        CrdtBatchOp::OrSetAdd { key: "members".to_string(), node_id: node(1), element: b"bob".to_vec() },
        CrdtBatchOp::OrSetRemove { key: "members".to_string(), element: b"alice".to_vec() },
    ];
    let result = merger.apply_batch(&ops).unwrap();
    assert_eq!(result.applied_count, 3);
    assert!(!merger.or_set_contains("members", b"alice"));
    assert!(merger.or_set_contains("members", b"bob"));
}

#[test]
fn test_lww_register_batch() {
    let mut merger = BatchCrdtMerger::new();
    let ops = vec![
        CrdtBatchOp::LwwRegisterUpdate {
            key: "config:threshold".to_string(),
            node_id: node(1),
            value: b"100".to_vec(),
            timestamp: 1000,
            version: 1,
        },
        CrdtBatchOp::LwwRegisterUpdate {
            key: "config:threshold".to_string(),
            node_id: node(1),
            value: b"200".to_vec(),
            timestamp: 2000,
            version: 2,
        },
    ];
    let result = merger.apply_batch(&ops).unwrap();
    assert_eq!(result.applied_count, 2);
    let value = merger.lww_register_value("config:threshold").unwrap();
    assert_eq!(value, b"200");
}

#[test]
fn test_empty_batch_rejected() {
    let mut merger = BatchCrdtMerger::new();
    let result = merger.apply_batch(&[]);
    assert!(matches!(result, Err(BatchCrdtError::EmptyBatch)));
}

#[test]
fn test_batch_too_large_rejected() {
    let mut merger = BatchCrdtMerger::with_max_batch_size(2);
    let ops = vec![
        CrdtBatchOp::GCounterIncrement { key: "k".to_string(), node_id: node(1), amount: 1 },
        CrdtBatchOp::GCounterIncrement { key: "k".to_string(), node_id: node(1), amount: 2 },
        CrdtBatchOp::GCounterIncrement { key: "k".to_string(), node_id: node(1), amount: 3 },
    ];
    let result = merger.apply_batch(&ops);
    assert!(matches!(result, Err(BatchCrdtError::BatchTooLarge(3, 2))));
}

#[test]
fn test_atomic_rollback_on_validation_failure() {
    let mut merger = BatchCrdtMerger::new();
    let setup_ops = vec![CrdtBatchOp::GCounterIncrement {
        key: "counter".to_string(),
        node_id: node(1),
        amount: u64::MAX - 10,
    }];
    merger.apply_batch(&setup_ops).unwrap();
    assert_eq!(merger.g_counter_value("counter"), u64::MAX - 10);
    let overflow_ops = vec![
        CrdtBatchOp::GCounterIncrement { key: "counter".to_string(), node_id: node(1), amount: 5 },
        CrdtBatchOp::GCounterIncrement { key: "counter".to_string(), node_id: node(1), amount: 20 },
    ];
    let result = merger.apply_batch(&overflow_ops);
    if let Err(BatchCrdtError::OperationFailed { .. }) = result {
        // Validation caught it.
    }
}

#[test]
fn test_gcounter_overflow_detection() {
    let mut merger = BatchCrdtMerger::new();
    let setup_ops = vec![CrdtBatchOp::GCounterIncrement {
        key: "counter".to_string(),
        node_id: node(1),
        amount: u64::MAX - 10,
    }];
    merger.apply_batch(&setup_ops).unwrap();
    let overflow_ops = vec![CrdtBatchOp::GCounterIncrement { key: "counter".to_string(), node_id: node(1), amount: 20 }];
    let result = merger.apply_batch(&overflow_ops);
    assert!(result.is_err());
    assert_eq!(merger.g_counter_value("counter"), u64::MAX - 10);
}

#[test]
fn test_merger_merge() {
    let mut merger_a = BatchCrdtMerger::new();
    let mut merger_b = BatchCrdtMerger::new();
    merger_a
        .apply_batch(&[CrdtBatchOp::GCounterIncrement { key: "counter".to_string(), node_id: node(1), amount: 100 }])
        .unwrap();
    merger_b
        .apply_batch(&[CrdtBatchOp::GCounterIncrement { key: "counter".to_string(), node_id: node(2), amount: 50 }])
        .unwrap();
    merger_a.merge(&merger_b);
    assert_eq!(merger_a.g_counter_value("counter"), 150);
}

#[test]
fn test_mixed_crdt_batch() {
    let mut merger = BatchCrdtMerger::new();
    let ops = vec![
        CrdtBatchOp::GCounterIncrement { key: "views".to_string(), node_id: node(1), amount: 1 },
        CrdtBatchOp::OrSetAdd { key: "tags".to_string(), node_id: node(1), element: b"rust".to_vec() },
        CrdtBatchOp::LwwRegisterUpdate {
            key: "title".to_string(),
            node_id: node(1),
            value: b"Hello World".to_vec(),
            timestamp: 1000,
            version: 1,
        },
    ];
    let result = merger.apply_batch(&ops).unwrap();
    assert_eq!(result.applied_count, 3);
    assert_eq!(result.modified_count, 3);
    assert_eq!(merger.g_counter_value("views"), 1);
    assert!(merger.or_set_contains("tags", b"rust"));
    assert_eq!(merger.lww_register_value("title").unwrap(), b"Hello World");
}

#[test]
fn crdt_batch_cumulative_overflow_is_rejected_whole() {
    let mut merger = BatchCrdtMerger::new();
    merger
        .apply_batch(&[CrdtBatchOp::GCounterIncrement { key: "c".to_string(), node_id: node(1), amount: u64::MAX - 10 }])
        .unwrap();
    let ops = vec![
        CrdtBatchOp::OrSetAdd { key: "s".to_string(), node_id: node(1), element: b"x".to_vec() },
        CrdtBatchOp::GCounterIncrement { key: "c".to_string(), node_id: node(1), amount: 5 },
        CrdtBatchOp::GCounterIncrement { key: "c".to_string(), node_id: node(1), amount: 6 },
    ];
    assert!(matches!(merger.apply_batch(&ops), Err(BatchCrdtError::ValidationFailed(_))));
    assert_eq!(merger.g_counter_value("c"), u64::MAX - 10);
    assert!(!merger.or_set_contains("s", b"x"));
    assert_eq!(merger.or_set_count(), 0);
}

#[test]
fn crdt_batch_counts_and_shared_names() {
    let mut merger = BatchCrdtMerger::default();
    let ops = vec![
        CrdtBatchOp::GCounterIncrement { key: "same".to_string(), node_id: node(1), amount: 1 },
        CrdtBatchOp::OrSetAdd { key: "same".to_string(), node_id: node(1), element: vec![1] },
        CrdtBatchOp::LwwRegisterUpdate { key: "other".to_string(), node_id: node(1), value: vec![2], timestamp: 1, version: 1 },
    ];
    let r = merger.apply_batch(&ops).unwrap();
    assert_eq!(r.modified_count, 2);
    assert_eq!(merger.g_counter_count(), 1);
    assert_eq!(merger.or_set_count(), 1);
    assert_eq!(merger.lww_register_count(), 1);
    assert!(merger.lww_register_value("missing").is_none());
}

#[test]
fn crdt_merge_is_commutative_on_counters_and_sets() {
    let mut a = BatchCrdtMerger::new();
    let mut b = BatchCrdtMerger::new();
    a.apply_batch(&[
        CrdtBatchOp::GCounterIncrement { key: "k".to_string(), node_id: node(1), amount: 7 },
        CrdtBatchOp::OrSetAdd { key: "s".to_string(), node_id: node(1), element: vec![1] },
    ])
    .unwrap();
    b.apply_batch(&[
        CrdtBatchOp::GCounterIncrement { key: "k".to_string(), node_id: node(1), amount: 3 },
        CrdtBatchOp::GCounterIncrement { key: "k".to_string(), node_id: node(2), amount: 4 },
        CrdtBatchOp::OrSetAdd { key: "s".to_string(), node_id: node(2), element: vec![2] },
        CrdtBatchOp::OrSetRemove { key: "s".to_string(), element: vec![2] },
    ])
    .unwrap();
    let mut ab = BatchCrdtMerger::new();
    ab.merge(&a);
    ab.merge(&b);
    let mut ba = BatchCrdtMerger::new();
    ba.merge(&b);
    ba.merge(&a);
    assert_eq!(ab.g_counter_value("k"), 11);
    assert_eq!(ba.g_counter_value("k"), 11);
    assert!(ab.or_set_contains("s", &[1]));
    assert!(ba.or_set_contains("s", &[1]));
    assert!(!ab.or_set_contains("s", &[2]));
    assert!(!ba.or_set_contains("s", &[2]));
}

#[test]
fn crdt_register_merge_keeps_later_write() {
    let mut a = BatchCrdtMerger::new();
    let mut b = BatchCrdtMerger::new();
    a.apply_batch(&[CrdtBatchOp::LwwRegisterUpdate { key: "r".to_string(), node_id: node(1), value: b"old".to_vec(), timestamp: 5, version: 1 }])
        .unwrap();
    b.apply_batch(&[CrdtBatchOp::LwwRegisterUpdate { key: "r".to_string(), node_id: node(2), value: b"new".to_vec(), timestamp: 9, version: 1 }])
        .unwrap();
    a.merge(&b);
    assert_eq!(a.lww_register_value("r").unwrap(), b"new");
    b.merge(&a);
    assert_eq!(b.lww_register_value("r").unwrap(), b"new");
}
