use omnia_consensus::ids::NodeId;
use omnia_consensus::vec_map::VecMap;
use omnia_consensus::vrf_election::fold_commitment;
use omnia_consensus::vrf_election::leader_schedule;
use omnia_consensus::vrf_election::primary_leader;

fn vnode(id: u8) -> NodeId {
    let mut n = [0u8; 32];
    n[0] = id;
    n
}

fn candidates(stakes: &[(u8, u64)]) -> VecMap<NodeId, u64> {
    let mut m = VecMap::new();
    for &(id, s) in stakes {
        m.insert(vnode(id), s);
    }
    m
}

#[test]
fn schedule_is_deterministic() {
    let c = candidates(&[(1, 100), (2, 100), (3, 100)]);
    let beacon = [7u8; 32];
    let a = leader_schedule(&c, &beacon, 5, 3);
    let b = leader_schedule(&c, &beacon, 5, 3);
    assert_eq!(a, b);
    assert_eq!(a.len(), 3);
}

#[test]
fn schedule_excludes_zero_stake() {
    let c = candidates(&[(1, 0), (2, 50), (3, 0)]);
    let sched = leader_schedule(&c, &[1u8; 32], 1, 10);
    assert_eq!(sched, vec![vnode(2)]);
}

#[test]
fn primary_matches_schedule_head() {
    let c = candidates(&[(1, 30), (2, 40), (3, 30)]);
    let beacon = [3u8; 32];
    let sched = leader_schedule(&c, &beacon, 9, 3);
    assert_eq!(primary_leader(&c, &beacon, 9), Some(sched[0]));
}

#[test]
fn different_beacons_reshuffle_leaders() {
    let c = candidates(&[(1, 100), (2, 100), (3, 100), (4, 100), (5, 100)]);
    let base = primary_leader(&c, &[0u8; 32], 1).unwrap();
    let changed = (1u8..=40).filter(|&b| primary_leader(&c, &[b; 32], 1).unwrap() != base).count();
    assert!(changed > 0, "beacon must influence leader selection");
}

#[test]
fn fold_commitment_is_order_independent_and_advances() {
    let beacon = [1u8; 32];
    let a = fold_commitment(&beacon, &[[9u8; 32], [4u8; 32], [6u8; 32]]);
    let b = fold_commitment(&beacon, &[[4u8; 32], [6u8; 32], [9u8; 32]]);
    assert_eq!(a, b, "commit order must not affect the beacon");
    assert_ne!(a, beacon, "beacon must change after folding");
    let idle = fold_commitment(&beacon, &[]);
    assert_ne!(idle, beacon);
}

#[test]
fn beacon_is_unpredictable_without_the_committed_set() {
    let beacon = [5u8; 32];
    let x = fold_commitment(&beacon, &[[1u8; 32]]);
    let y = fold_commitment(&beacon, &[[2u8; 32]]);
    assert_ne!(x, y);
}

#[test]
fn higher_stake_wins_more_often() {
    let c = candidates(&[(1, 900), (2, 100)]);
    let high = (0u8..=200).filter(|&b| primary_leader(&c, &[b; 32], 0) == Some(vnode(1))).count();
    assert!(high > 130, "high-stake validator should lead most rounds, got {high}/201");
}

#[test]
fn schedule_lists_each_staked_candidate_once() {
    let c = candidates(&[(1, 10), (2, 20), (3, 30), (4, 0)]);
    let sched = leader_schedule(&c, &[4u8; 32], 2, 10);
    assert_eq!(sched.len(), 3);
    let mut sorted = sched.clone();
    sorted.sort();
    sorted.dedup();
    assert_eq!(sorted.len(), 3);
    assert!(!sched.contains(&vnode(4)));
}

#[test]
fn primary_leader_of_no_stake_is_none() {
    let c = candidates(&[(1, 0)]);
    assert_eq!(primary_leader(&c, &[0u8; 32], 0), None);
    assert!(leader_schedule(&c, &[0u8; 32], 0, 3).is_empty());
}
