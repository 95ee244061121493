//! Stake-weighted leader election with ranked backups.
//!
//! The beacon absorbs the committed frontier each round, so leaders cannot
//! be computed beyond it. Each positive-stake candidate gets a draw from the
//! beacon, the round and its id; its priority key is the draw scaled down by
//! its stake, and the schedule lists candidates by ascending key (ties by
//! id): the primary first, then the backups.
use vstd::prelude::*;
use vstd::multiset::Multiset;
use vstd::string::StringSliceAdditionalSpecFns;
use crate::ids::NodeId;
use crate::ids::id_lt;
use crate::ids::id_less;
use crate::ids::lemma_id_order;
use crate::ids::le_bytes_u64;
use crate::ids::push_le_u64;
use crate::ids::sort_ids;
use crate::ids::sorted_multiset_listing;
use crate::ids::lemma_sorted_multiset_listing;
use crate::crypto::append_bytes;
use crate::crypto::blake3_hash;
use crate::crypto::blake3_digest;
use crate::vec_map::VecMap;

verus! {

/// The domain tag of beacon evolution.
pub open spec fn beacon_domain() -> Seq<u8> {
    "OMNIA-LEADER-BEACON-V1".spec_bytes()
}

/// The domain tag of selection draws.
pub open spec fn draw_domain() -> Seq<u8> {
    "OMNIA-LEADER-DRAW-V1".spec_bytes()
}

/// The domain tag of ticket inputs.
pub open spec fn ticket_domain() -> Seq<u8> {
    "OMNIA-LEADER-TICKET-V1".spec_bytes()
}

/// The concatenation of a list of ids.
pub open spec fn concat_ids(s: Seq<[u8; 32]>) -> Seq<u8>
    decreases s.len(),
{
    if s.len() == 0 {
        Seq::empty()
    } else {
        concat_ids(s.drop_last()) + s.last()@
    }
}

/// The next beacon: BLAKE3(domain || beacon || count || ids in ascending
/// order), every committed id listed as often as it was committed.
pub open spec fn folded_beacon(beacon: [u8; 32], committed: Multiset<[u8; 32]>) -> [u8; 32] {
    let s = sorted_multiset_listing(committed);
    blake3_digest(beacon_domain() + beacon@ + le_bytes_u64(s.len() as u64) + concat_ids(s))
}

/// Fold the ids committed this round into the beacon. The ids are sorted
/// so every node derives the same beacon whatever order it committed them in.
pub fn fold_commitment(beacon: &[u8; 32], committed: &[[u8; 32]]) -> (r: [u8; 32])
    ensures
        r == folded_beacon(*beacon, committed@.to_multiset()),
{
    let mut v: Vec<[u8; 32]> = Vec::new();
    let mut i: usize = 0;
    while i < committed.len()
        invariant
            i <= committed@.len(),
            v@ == committed@.take(i as int),
        decreases committed@.len() - i,
    {
        v.push(committed[i]);
        proof {
            assert(committed@.take(i + 1) =~= committed@.take(i as int).push(committed@[i as int]));
        }
        i = i + 1;
    }
    proof {
        assert(committed@.take(committed@.len() as int) =~= committed@);
    }
    let sorted = sort_ids(&v);
    proof {
        lemma_sorted_multiset_listing(sorted@, committed@.to_multiset());
    }
    let mut buf: Vec<u8> = Vec::new();
    append_bytes(&mut buf, "OMNIA-LEADER-BEACON-V1".as_bytes());
    append_bytes(&mut buf, beacon);
    push_le_u64(&mut buf, sorted.len() as u64);
    let ghost head = buf@;
    let mut j: usize = 0;
    while j < sorted.len()
        invariant
            j <= sorted@.len(),
            buf@ == head + concat_ids(sorted@.take(j as int)),
        decreases sorted@.len() - j,
    {
        append_bytes(&mut buf, &sorted[j]);
        proof {
            assert(sorted@.take(j + 1).drop_last() =~= sorted@.take(j as int));
            assert(sorted@.take(j + 1).last() == sorted@[j as int]);
            assert(buf@ =~= head + concat_ids(sorted@.take(j + 1)));
        }
        j = j + 1;
    }
    proof {
        assert(sorted@.take(sorted@.len() as int) =~= sorted@);
    }
    blake3_hash(buf.as_slice())
}

/// The value of a little-endian byte string.
pub open spec fn le_value(s: Seq<u8>) -> nat
    decreases s.len(),
{
    if s.len() == 0 {
        0
    } else {
        s[0] as nat + 256 * le_value(s.subrange(1, s.len() as int))
    }
}

/// A little-endian string of `n` bytes stays below `256^n`.
proof fn lemma_le_value_bound(s: Seq<u8>)
    ensures
        le_value(s) < crate::ids::pow256(s.len() as int),
    decreases s.len(),
{
    if s.len() > 0 {
        let t = s.subrange(1, s.len() as int);
        lemma_le_value_bound(t);
        assert(crate::ids::pow256(s.len() as int) == 256 * crate::ids::pow256(t.len() as int));
        assert(s[0] as nat + 256 * le_value(t) < 256 * crate::ids::pow256(t.len() as int)) by (nonlinear_arith)
            requires
                s[0] < 256,
                le_value(t) < crate::ids::pow256(t.len() as int),
        ;
    }
}

/// The value of the first eight bytes of `b`, little-endian.
fn first_u64_le(b: &[u8; 32]) -> (r: u64)
    ensures
        r == le_value(b@.subrange(0, 8)),
{
    let mut acc: u64 = 0;
    let mut i: usize = 8;
    proof {
        assert(b@.subrange(8, 8) =~= Seq::<u8>::empty());
    }
    while i > 0
        invariant
            i <= 8,
            acc == le_value(b@.subrange(i as int, 8)),
        decreases i,
    {
        i = i - 1;
        proof {
            let t = b@.subrange(i + 1, 8);
            let s = b@.subrange(i as int, 8);
            assert(s.subrange(1, s.len() as int) =~= t);
            lemma_le_value_bound(t);
            assert(crate::ids::pow256(t.len() as int) <= crate::ids::pow256(7)) by {
                lemma_pow256_mono(t.len() as int, 7);
            }
            assert(crate::ids::pow256(7) == 72057594037927936) by {
                reveal_with_fuel(crate::ids::pow256, 8);
            }
        }
        acc = acc * 256 + b[i] as u64;
    }
    acc
}

/// Powers of 256 grow with the exponent.
proof fn lemma_pow256_mono(a: int, b: int)
    requires
        0 <= a <= b,
    ensures
        crate::ids::pow256(a) <= crate::ids::pow256(b),
    decreases b - a,
{
    if a < b {
        lemma_pow256_mono(a, b - 1);
        assert(crate::ids::pow256(b) == 256 * crate::ids::pow256(b - 1));
        assert(crate::ids::pow256(b - 1) >= 1) by {
            lemma_pow256_pos(b - 1);
        }
    }
}

/// Powers of 256 are positive.
proof fn lemma_pow256_pos(a: int)
    ensures
        crate::ids::pow256(a) >= 1,
    decreases a,
{
    if a > 0 {
        lemma_pow256_pos(a - 1);
    }
}

/// A candidate's draw for a round: the first eight bytes, little-endian, of
/// BLAKE3(domain || beacon || round || node).
pub open spec fn draw_spec(beacon: [u8; 32], round: u64, node: NodeId) -> nat {
    le_value(blake3_digest(draw_domain() + beacon@ + le_bytes_u64(round) + node@)@.subrange(0, 8))
}

/// A candidate's 64-bit draw for a round.
pub fn candidate_draw(beacon: &[u8; 32], round: u64, node: &NodeId) -> (r: u64)
    ensures
        r == draw_spec(*beacon, round, *node),
{
    let mut buf: Vec<u8> = Vec::new();
    append_bytes(&mut buf, "OMNIA-LEADER-DRAW-V1".as_bytes());
    append_bytes(&mut buf, beacon);
    push_le_u64(&mut buf, round);
    append_bytes(&mut buf, node);
    proof {
        assert(buf@ =~= draw_domain() + beacon@ + le_bytes_u64(round) + node@);
    }
    let h = blake3_hash(buf.as_slice());
    first_u64_le(&h)
}

/// The stake-weighted priority key: `draw * 2^64 / stake`.
pub open spec fn priority_key_spec(draw: nat, stake: nat) -> nat {
    (draw * 18446744073709551616) / stake
}

/// The priority key of a draw under a positive stake; lower keys rank
/// first.
pub fn priority_key(draw: u64, stake: u64) -> (r: u128)
    requires
        stake > 0,
    ensures
        r == priority_key_spec(draw as nat, stake as nat),
{
    proof {
        assert((draw as int) * 18446744073709551616 <= u128::MAX) by (nonlinear_arith)
            requires
                draw <= u64::MAX,
        ;
    }
    let scaled = (draw as u128) * 18446744073709551616u128;
    scaled / (stake as u128)
}

/// Priority law: with the same draw, more stake never gives a larger key.
pub proof fn lemma_priority_stake_monotone(draw: nat, s1: nat, s2: nat)
    requires
        0 < s1 <= s2,
    ensures
        priority_key_spec(draw, s2) <= priority_key_spec(draw, s1),
{
    vstd::arithmetic::div_mod::lemma_div_is_ordered_by_denominator((draw * 18446744073709551616) as int, s1 as int, s2 as int);
}

/// Ranking order: by key, then by id.
pub open spec fn rank_lt(a: (u128, NodeId), b: (u128, NodeId)) -> bool {
    a.0 < b.0 || (a.0 == b.0 && id_lt(a.1, b.1))
}

/// A ranking in strictly increasing order.
pub open spec fn rank_sorted(s: Seq<(u128, NodeId)>) -> bool {
    forall|i: int, j: int| 0 <= i < j < s.len() ==> rank_lt(#[trigger] s[i], #[trigger] s[j])
}

/// The ranking entries of the positive-stake candidates.
pub open spec fn rank_entries(cands: Map<NodeId, u64>, beacon: [u8; 32], round: u64) -> Set<(u128, NodeId)> {
    Set::new(
        |p: (u128, NodeId)|
            cands.contains_key(p.1) && cands[p.1] > 0 && p.0 == priority_key_spec(
                draw_spec(beacon, round, p.1),
                cands[p.1] as nat,
            ),
    )
}

/// Insert `x` into a strictly sorted ranking that does not hold its id.
fn insert_ranked(out: &mut Vec<(u128, NodeId)>, x: (u128, NodeId))
    requires
        rank_sorted(old(out)@),
        forall|q: int| 0 <= q < old(out)@.len() ==> (#[trigger] old(out)@[q]).1 != x.1,
    ensures
        rank_sorted(final(out)@),
        final(out)@.to_set() == old(out)@.to_set().insert(x),
        final(out)@.len() == old(out)@.len() + 1,
{
    let mut p: usize = 0;
    while p < out.len() && (out[p].0 < x.0 || (out[p].0 == x.0 && id_less(&out[p].1, &x.1)))
        invariant
            p <= out@.len(),
            forall|q: int| 0 <= q < p ==> rank_lt(#[trigger] out@[q], x),
        decreases out@.len() - p,
    {
        p = p + 1;
    }
    let ghost before = out@;
    proof {
        assert forall|q: int| p <= q < before.len() implies rank_lt(x, #[trigger] before[q]) by {
            let y = before[p as int];
            assert(!rank_lt(y, x));
            assert(y.1 != x.1);
            lemma_id_order(x.1, y.1, before[q].1);
            lemma_id_order(y.1, x.1, before[q].1);
            if q > p {
                assert(rank_lt(y, before[q]));
            }
        }
    }
    out.insert(p, x);
    proof {
        assert forall|a: int, b: int| 0 <= a < b < out@.len() implies rank_lt(#[trigger] out@[a], #[trigger] out@[b]) by {
            if a < p && b == p {
            } else if a < p && b > p {
                lemma_id_order(before[a].1, x.1, before[b - 1].1);
            } else if a == p {
            } else if a < p {
            } else {
                assert(rank_lt(before[a - 1], before[b - 1]));
            }
        }
        assert forall|y: (u128, NodeId)| out@.contains(y) <==> before.to_set().insert(x).contains(y) by {
            if out@.contains(y) {
                let q = choose|q: int| 0 <= q < out@.len() && out@[q] == y;
                if q < p {
                    assert(before[q] == y);
                } else if q > p {
                    assert(before[q - 1] == y);
                }
            }
            if before.contains(y) {
                let q = choose|q: int| 0 <= q < before.len() && before[q] == y;
                if q < p {
                    assert(out@[q] == y);
                } else {
                    assert(out@[q + 1] == y);
                }
            }
            if y == x {
                assert(out@[p as int] == x);
            }
        }
        assert(out@.to_set() =~= before.to_set().insert(x));
    }
}

/// The leader schedule for a round: the positive-stake candidates ranked by
/// ascending priority key (ties by id), at most `count` of them; the
/// primary first, then the backups.
pub fn leader_schedule(candidates: &VecMap<NodeId, u64>, beacon: &[u8; 32], round: u64, count: usize) -> (r: Vec<NodeId>)
    requires
        candidates.wf(),
    ensures
        exists|ranked: Seq<(u128, NodeId)>| #[trigger] rank_sorted(ranked) && ranked.to_set() == rank_entries(candidates@, *beacon, round)
            && r@ == ranked.take(if count < ranked.len() { count as int } else { ranked.len() as int }).map_values(|p: (u128, NodeId)| p.1),
{
    proof {
        candidates.lemma_entries();
    }
    let n = candidates.len();
    let mut ranked: Vec<(u128, NodeId)> = Vec::new();
    let mut i: usize = 0;
    while i < n
        invariant
            candidates.wf(),
            n == candidates.entry_seq().len(),
            i <= n,
            rank_sorted(ranked@),
            forall|y: (u128, NodeId)| #[trigger] ranked@.contains(y) <==> rank_entries(candidates@, *beacon, round).contains(y)
                && exists|j: int| 0 <= j < i && #[trigger] candidates.entry_seq()[j].0 == y.1,
        decreases n - i,
    {
        proof {
            candidates.lemma_entries();
        }
        let node = *candidates.key_at(i);
        let stake = *candidates.value_at(i);
        proof {
            assert(candidates@.contains_key(node));
            assert(candidates@[node] == stake);
        }
        if stake > 0 {
            let draw = candidate_draw(beacon, round, &node);
            let key = priority_key(draw, stake);
            let ghost r0 = ranked@;
            proof {
                assert forall|q: int| 0 <= q < r0.len() implies (#[trigger] r0[q]).1 != node by {
                    assert(r0.contains(r0[q]));
                    let j = choose|j: int| 0 <= j < i && #[trigger] candidates.entry_seq()[j].0 == r0[q].1;
                    assert(candidates.entry_seq()[j].0 != candidates.entry_seq()[i as int].0);
                }
            }
            insert_ranked(&mut ranked, (key, node));
            proof {
                assert forall|y: (u128, NodeId)| #[trigger] ranked@.contains(y) <==> rank_entries(candidates@, *beacon, round).contains(y)
                    && exists|j: int| 0 <= j < i + 1 && #[trigger] candidates.entry_seq()[j].0 == y.1 by {
                    assert(ranked@.to_set().contains(y) == ranked@.contains(y));
                    if y == (key, node) {
                        assert(candidates.entry_seq()[i as int].0 == y.1);
                    } else if ranked@.contains(y) {
                        assert(r0.to_set().contains(y));
                        assert(r0.contains(y));
                    } else if rank_entries(candidates@, *beacon, round).contains(y) && exists|j: int| 0 <= j < i + 1 && #[trigger] candidates.entry_seq()[j].0 == y.1 {
                        let j = choose|j: int| 0 <= j < i + 1 && #[trigger] candidates.entry_seq()[j].0 == y.1;
                        if j == i {
                            assert(y.1 == node);
                            assert(y.0 == key);
                        } else {
                            assert(r0.contains(y));
                            assert(r0.to_set().contains(y));
                        }
                    }
                }
            }
        } else {
            proof {
                assert forall|y: (u128, NodeId)| #[trigger] ranked@.contains(y) <==> rank_entries(candidates@, *beacon, round).contains(y)
                    && exists|j: int| 0 <= j < i + 1 && #[trigger] candidates.entry_seq()[j].0 == y.1 by {
                    if rank_entries(candidates@, *beacon, round).contains(y) && exists|j: int| 0 <= j < i + 1 && #[trigger] candidates.entry_seq()[j].0 == y.1 {
                        let j = choose|j: int| 0 <= j < i + 1 && #[trigger] candidates.entry_seq()[j].0 == y.1;
                        if j == i {
                            assert(y.1 == node);
                        }
                    }
                }
            }
        }
        i = i + 1;
    }
    proof {
        candidates.lemma_entries();
        assert forall|y: (u128, NodeId)| ranked@.to_set().contains(y) <==> rank_entries(candidates@, *beacon, round).contains(y) by {
            if rank_entries(candidates@, *beacon, round).contains(y) {
                let j = choose|j: int| 0 <= j < candidates.entry_seq().len() && #[trigger] candidates.entry_seq()[j].0 == y.1;
            }
        }
        assert(ranked@.to_set() =~= rank_entries(candidates@, *beacon, round));
    }
    let take = if count < ranked.len() { count } else { ranked.len() };
    let mut r: Vec<NodeId> = Vec::new();
    let mut k: usize = 0;
    while k < take
        invariant
            take <= ranked@.len(),
            k <= take,
            r@ == ranked@.take(k as int).map_values(|p: (u128, NodeId)| p.1),
        decreases take - k,
    {
        r.push(ranked[k].1);
        k = k + 1;
        proof {
            assert(r@ =~= ranked@.take(k as int).map_values(|p: (u128, NodeId)| p.1));
        }
    }
    proof {
        assert(rank_sorted(ranked@));
    }
    r
}

/// The primary leader of a round, or `None` without a positive-stake
/// candidate.
pub fn primary_leader(candidates: &VecMap<NodeId, u64>, beacon: &[u8; 32], round: u64) -> (r: Option<NodeId>)
    requires
        candidates.wf(),
    ensures
        exists|ranked: Seq<(u128, NodeId)>| #[trigger] rank_sorted(ranked) && ranked.to_set() == rank_entries(candidates@, *beacon, round)
            && r == (if ranked.len() == 0 { None } else { Some(ranked[0].1) }),
{
    let s = leader_schedule(candidates, beacon, round, 1);
    proof {
        let ranked = choose|ranked: Seq<(u128, NodeId)>| #[trigger] rank_sorted(ranked) && ranked.to_set() == rank_entries(candidates@, *beacon, round)
            && s@ == ranked.take(if 1 < ranked.len() { 1 } else { ranked.len() as int }).map_values(|p: (u128, NodeId)| p.1);
        assert(rank_sorted(ranked));
    }
    if s.len() == 0 {
        None
    } else {
        Some(s[0])
    }
}

/// The VRF input that claims a slot: BLAKE3(domain || beacon || round).
pub open spec fn ticket_alpha_spec(beacon: [u8; 32], round: u64) -> [u8; 32] {
    blake3_digest(ticket_domain() + beacon@ + le_bytes_u64(round))
}

/// The VRF input a validator proves over to claim a slot in `round`.
pub fn ticket_alpha(beacon: &[u8; 32], round: u64) -> (r: [u8; 32])
    ensures
        r == ticket_alpha_spec(*beacon, round),
{
    let mut buf: Vec<u8> = Vec::new();
    append_bytes(&mut buf, "OMNIA-LEADER-TICKET-V1".as_bytes());
    append_bytes(&mut buf, beacon);
    push_le_u64(&mut buf, round);
    proof {
        assert(buf@ =~= ticket_domain() + beacon@ + le_bytes_u64(round));
    }
    blake3_hash(buf.as_slice())
}

/// The priority key of a VRF output: its first eight bytes as the draw,
/// under the stake (at least one).
pub fn ticket_priority(beta: &[u8; 64], stake: u64) -> (r: u128)
    ensures
        r == priority_key_spec(le_value(beta@.subrange(0, 8)), if stake == 0 { 1 } else { stake as nat }),
{
    let mut acc: u64 = 0;
    let mut i: usize = 8;
    proof {
        assert(beta@.subrange(8, 8) =~= Seq::<u8>::empty());
    }
    while i > 0
        invariant
            i <= 8,
            acc == le_value(beta@.subrange(i as int, 8)),
        decreases i,
    {
        i = i - 1;
        proof {
            let t = beta@.subrange(i + 1, 8);
            let s = beta@.subrange(i as int, 8);
            assert(s.subrange(1, s.len() as int) =~= t);
            lemma_le_value_bound(t);
            lemma_pow256_mono(t.len() as int, 7);
            assert(crate::ids::pow256(7) == 72057594037927936) by {
                reveal_with_fuel(crate::ids::pow256, 8);
            }
        }
        acc = acc * 256 + beta[i] as u64;
    }
    let s = if stake == 0 { 1 } else { stake };
    priority_key(acc, s)
}

} // verus!
