use sha2::Digest;
use omnia_consensus::crdt::GCounter;
use omnia_consensus::ids::NodeId;

fn node(id: u8) -> NodeId {
    let mut n = [0u8; 32];
    n[0] = id;
    n
}

#[test]
fn test_basic_increment() {
    let mut counter = GCounter::new();
    let n1 = node(1);
    assert_eq!(counter.value(), 0);
    counter.increment(n1, 1).unwrap();
    assert_eq!(counter.value(), 1);
    counter.increment(n1, 5).unwrap();
    assert_eq!(counter.value(), 6);
}

#[test]
fn test_multi_node() {
    let mut counter = GCounter::new();
    let n1 = node(1);
    let n2 = node(2);
    let n3 = node(3);
    counter.increment(n1, 10).unwrap();
    counter.increment(n2, 20).unwrap();
    counter.increment(n3, 30).unwrap();
    assert_eq!(counter.value(), 60);
    assert_eq!(counter.node_value(&n1), 10);
    assert_eq!(counter.node_value(&n2), 20);
    assert_eq!(counter.node_value(&n3), 30);
}

#[test]
fn test_merge() {
    let n1 = node(1);
    let n2 = node(2);
    let n3 = node(3);
    let mut counter_a = GCounter::new();
    counter_a.increment(n1, 5).unwrap();
    counter_a.increment(n2, 10).unwrap();
    let mut counter_b = GCounter::new();
    counter_b.increment(n2, 8).unwrap();
    counter_b.increment(n3, 15).unwrap();
    counter_a.merge(&counter_b);
    assert_eq!(counter_a.value(), 30);
    assert_eq!(counter_a.node_value(&n1), 5);
    assert_eq!(counter_a.node_value(&n2), 10);
    assert_eq!(counter_a.node_value(&n3), 15);
}

#[test]
fn test_merge_commutative() {
    let n1 = node(1);
    let n2 = node(2);
    let mut a = GCounter::new();
    a.increment(n1, 5).unwrap();
    let mut b = GCounter::new();
    b.increment(n2, 10).unwrap();
    let merged_ab = a.merged(&b);
    let merged_ba = b.merged(&a);
    assert_eq!(merged_ab.contributions(), merged_ba.contributions());
}

#[test]
fn test_merge_idempotent() {
    let n1 = node(1);
    let mut a = GCounter::new();
    a.increment(n1, 5).unwrap();
    let merged = a.merged(&a);
    assert_eq!(a.value(), merged.value());
}

#[test]
fn test_merge_associative() {
    let n1 = node(1);
    let n2 = node(2);
    let n3 = node(3);
    let mut a = GCounter::new();
    a.increment(n1, 1).unwrap();
    let mut b = GCounter::new();
    b.increment(n2, 2).unwrap();
    let mut c = GCounter::new();
    c.increment(n3, 3).unwrap();
    let ab_c = a.merged(&b).merged(&c);
    let a_bc = a.merged(&b.merged(&c));
    assert_eq!(ab_c.contributions(), a_bc.contributions());
}

#[test]
fn test_monotonic() {
    let n1 = node(1);
    let mut counter = GCounter::new();
    let v1 = counter.value();
    counter.increment(n1, 1).unwrap();
    let v2 = counter.value();
    counter.increment(n1, 1).unwrap();
    let v3 = counter.value();
    assert!(v1 < v2);
    assert!(v2 < v3);
}

#[test]
fn test_state_hash() {
    let n1 = node(1);
    let mut counter = GCounter::new();
    let hash1 = counter.state_hash();
    counter.increment(n1, 1).unwrap();
    let hash2 = counter.state_hash();
    assert_ne!(hash1, hash2);
    let mut counter2 = GCounter::new();
    counter2.increment(n1, 1).unwrap();
    assert_eq!(counter.state_hash(), counter2.state_hash());
}

#[test]
fn test_value_saturates_on_overflow() {
    let mut counter = GCounter::new();
    let n1 = node(1);
    let n2 = node(2);
    counter.increment(n1, u64::MAX).unwrap();
    counter.increment(n2, 1).unwrap();
    assert_eq!(counter.value(), u64::MAX);
    assert!(counter.value_checked().is_err());
}

#[test]
fn gcounter_state_hash_is_sha256_of_sorted_entries() {
    let mut counter = GCounter::new();
    counter.increment(node(2), 7).unwrap();
    counter.increment(node(1), 3).unwrap();
    let mut h = sha2::Sha256::new();
    h.update(node(1));
    h.update(3u64.to_le_bytes());
    h.update(node(2));
    h.update(7u64.to_le_bytes());
    let expected: [u8; 32] = h.finalize().into();
    assert_eq!(counter.state_hash(), expected);
}

#[test]
fn gcounter_increment_overflow_leaves_counter() {
    let mut counter = GCounter::new();
    counter.increment(node(1), u64::MAX).unwrap();
    assert!(counter.increment(node(1), 1).is_err());
    assert_eq!(counter.node_value(&node(1)), u64::MAX);
}
