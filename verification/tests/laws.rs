use omnia_consensus::sys::saturating_millis;
use omnia_consensus::sys::wrapping_millis;
use omnia_consensus::slashing::EjectionReason;
use omnia_consensus::causal_graph::CausalGraph;
use omnia_consensus::causal_graph::CausalGraphError;
use omnia_consensus::consensus::supermajority;
use omnia_consensus::event::Event;
use omnia_consensus::ids::NodeId;
use omnia_consensus::lww_register::LwwRegister;
use omnia_consensus::or_set::OrSet;
use omnia_consensus::vector_clock::VectorClock;
use omnia_consensus::vrf_election::priority_key;

fn law_node(id: u8) -> NodeId {
    let mut n = [0u8; 32];
    n[0] = id;
    n
}

fn clock(entries: &[(u8, u64)]) -> VectorClock {
    let mut vc = VectorClock::new();
    for &(n, v) in entries {
        vc.set(law_node(n), v);
    }
    vc
}

fn set_with(adds: &[(u8, &[u8])], removes: &[&[u8]]) -> OrSet {
    let mut s = OrSet::new();
    for &(n, e) in adds {
        s.add(law_node(n), e.to_vec());
    }
    for &e in removes {
        s.remove(e);
    }
    s
}

fn members(s: &OrSet, universe: &[&[u8]]) -> Vec<bool> {
    universe.iter().map(|e| s.contains(e)).collect()
}

#[test]
fn or_set_merge_is_commutative_and_idempotent_on_members() {
    let universe: [&[u8]; 3] = [b"a", b"b", b"c"];
    let a = set_with(&[(1, b"a"), (1, b"b")], &[b"b"]);
    let b = set_with(&[(2, b"b"), (2, b"c")], &[]);

    let mut ab = set_with(&[(1, b"a"), (1, b"b")], &[b"b"]);
    ab.merge(&b);
    let mut ba = set_with(&[(2, b"b"), (2, b"c")], &[]);
    ba.merge(&a);
    assert_eq!(members(&ab, &universe), members(&ba, &universe));
    assert_eq!(members(&ab, &universe), vec![true, true, true]);

    let mut aa = set_with(&[(1, b"a"), (1, b"b")], &[b"b"]);
    aa.merge(&a);
    assert_eq!(members(&aa, &universe), members(&a, &universe));
}

#[test]
fn or_set_concurrent_add_wins_over_remove() {
    let mut a = set_with(&[(1, b"x")], &[b"x"]);
    assert!(!a.contains(b"x"));
    let b = set_with(&[(2, b"x")], &[]);
    a.merge(&b);
    assert!(a.contains(b"x"));
}

#[test]
fn or_set_add_then_contains() {
    let mut s = OrSet::new();
    assert!(!s.contains(b"k"));
    s.add(law_node(3), b"k".to_vec());
    assert!(s.contains(b"k"));
    s.remove(b"k");
    assert!(!s.contains(b"k"));
}

fn register(value: &[u8], ts: u64, writer: u8, version: u64) -> LwwRegister {
    let mut r = LwwRegister::new(law_node(writer));
    r.set_with_meta(value.to_vec(), ts, law_node(writer), version);
    r
}

#[test]
fn lww_merge_keeps_the_later_write_either_way() {
    let mut a = register(b"old", 10, 1, 1);
    let b = register(b"new", 20, 2, 1);
    a.merge(&b);
    assert_eq!(a.get(), Some(&b"new".to_vec()));

    let mut b2 = register(b"new", 20, 2, 1);
    let a2 = register(b"old", 10, 1, 1);
    b2.merge(&a2);
    assert_eq!(b2.get(), Some(&b"new".to_vec()));
    assert_eq!(b2.timestamp(), 20);
    assert_eq!(b2.writer(), law_node(2));
}

#[test]
fn lww_merge_idempotent_and_tie_broken_by_version_then_writer() {
    let mut a = register(b"v", 5, 1, 3);
    let a_copy = register(b"v", 5, 1, 3);
    a.merge(&a_copy);
    assert_eq!(a.get(), Some(&b"v".to_vec()));
    assert_eq!(a.version(), 3);

    let mut lo = register(b"lo", 5, 1, 1);
    lo.merge(&register(b"hi", 5, 1, 2));
    assert_eq!(lo.get(), Some(&b"hi".to_vec()));

    let mut w1 = register(b"one", 5, 1, 1);
    w1.merge(&register(b"two", 5, 2, 1));
    assert_eq!(w1.get(), Some(&b"two".to_vec()));
}

#[test]
fn empty_register_takes_any_write_on_merge() {
    let mut empty = LwwRegister::new(law_node(9));
    assert!(empty.get().is_none());
    empty.merge(&register(b"z", 0, 1, 0));
    assert_eq!(empty.get(), Some(&b"z".to_vec()));
}

#[test]
fn vector_clock_merge_is_commutative_idempotent_and_an_upper_bound() {
    let a = clock(&[(1, 3), (2, 1)]);
    let b = clock(&[(2, 4), (3, 2)]);
    let ab = a.merged(&b);
    let ba = b.merged(&a);
    assert_eq!(ab.sorted(), ba.sorted());
    assert_eq!(ab.sorted(), vec![(law_node(1), 3), (law_node(2), 4), (law_node(3), 2)]);
    assert_eq!(a.merged(&a).sorted(), a.sorted());
    assert!(a.le(&ab));
    assert!(b.le(&ab));
}

#[test]
fn happened_before_is_irreflexive_transitive_and_concurrency_symmetric() {
    let a = clock(&[(1, 1)]);
    let b = clock(&[(1, 2)]);
    let c = clock(&[(1, 2), (2, 1)]);
    assert!(!a.happened_before(&a));
    assert!(a.happened_before(&b));
    assert!(b.happened_before(&c));
    assert!(a.happened_before(&c));
    assert!(c.happened_after(&a));
    let x = clock(&[(1, 1)]);
    let y = clock(&[(2, 1)]);
    assert!(x.concurrent(&y));
    assert!(y.concurrent(&x));
    assert!(!a.concurrent(&b));
}

#[test]
fn supermajority_is_more_than_two_thirds() {
    for n in 4..200usize {
        let s = supermajority(n);
        assert!(3 * s > 2 * n);
        assert!(s <= n);
    }
    for n in 0..4usize {
        assert_eq!(supermajority(n), n);
    }
}

#[test]
fn more_stake_never_gives_a_larger_priority_key() {
    let draw = 0xdead_beef_u64;
    assert!(priority_key(draw, 1000) <= priority_key(draw, 100));
    assert!(priority_key(draw, 100) <= priority_key(draw, 1));
    assert_eq!(priority_key(draw, 1), (draw as u128) << 64);
    assert_eq!(priority_key(1, 2), 1u128 << 63);
}

#[test]
fn duplicate_error_names_the_id_prefix_in_hex() {
    let mut graph = CausalGraph::new();
    let e = Event::genesis(law_node(1), vec![1, 2]);
    let id = e.id;
    graph.insert(e.duplicate()).unwrap();
    match graph.insert(e) {
        Err(CausalGraphError::DuplicateEvent(s)) => assert_eq!(s, hex::encode(&id[..8])),
        _ => panic!("expected a duplicate error"),
    }
}

#[test]
fn event_id_is_blake3_of_domain_and_content() {
    let creator = law_node(4);
    let e = Event::genesis(creator, vec![9, 8]);
    let mut content = Vec::new();
    content.extend_from_slice(b"omnia-event");
    content.extend_from_slice(&creator);
    content.extend_from_slice(&0u64.to_le_bytes());
    content.push(0);
    content.push(0);
    content.extend_from_slice(&0u64.to_le_bytes());
    content.extend_from_slice(&2u64.to_le_bytes());
    content.extend_from_slice(&[9, 8]);
    assert_eq!(e.id, *blake3::hash(&content).as_bytes());
    assert!(e.verify_hash());
}

#[test]
fn error_messages_name_their_cause() {
    let e = CausalGraphError::DuplicateEvent(String::from("00ff"));
    assert_eq!(e.message(), "Event already exists in graph: 00ff");
    let e = CausalGraphError::SequenceGapTooLarge { creator: law_node(1), expected: 1, actual: 900, max_gap: 512 };
    assert_eq!(e.message(), "Sequence gap too large");
}

#[test]
fn ejection_reasons_read_as_text() {
    assert_eq!(EjectionReason::RepeatEquivocation.as_str(), "repeat_equivocation");
    assert_eq!(EjectionReason::RepeatInvalidAttestation.as_str(), "repeat_invalid_attestation");
}

#[test]
fn millisecond_counts_wrap_or_saturate_as_stated() {
    assert_eq!(saturating_millis(1_234), 1_234);
    assert_eq!(saturating_millis(u64::MAX as u128 + 7), u64::MAX);
    assert_eq!(wrapping_millis(1_234), 1_234);
    assert_eq!(wrapping_millis((1u128 << 64) + 5), 5);
}
