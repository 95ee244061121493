//! Per-node counters merged by pointwise maximum, and vector clocks built
//! on them.
use vstd::prelude::*;
use crate::ids::NodeId;
use crate::ids::ids_strictly_sorted;
use crate::ids::lemma_sorted_permutation_strict;
use crate::ids::sort_ids;
use crate::ids::le_bytes_u64;
use crate::ids::push_le_u64;
use crate::vec_map::VecMap;

verus! {

/// The count recorded for `n`, zero when there is none.
pub open spec fn count_at(m: Map<NodeId, u64>, n: NodeId) -> u64 {
    if m.contains_key(n) {
        m[n]
    } else {
        0
    }
}

/// Pointwise-maximum merge of two per-node count maps.
pub open spec fn max_merge(a: Map<NodeId, u64>, b: Map<NodeId, u64>) -> Map<NodeId, u64> {
    Map::new(
        |k: NodeId| a.contains_key(k) || b.contains_key(k),
        |k: NodeId|
            if a.contains_key(k) && b.contains_key(k) {
                if a[k] >= b[k] {
                    a[k]
                } else {
                    b[k]
                }
            } else if a.contains_key(k) {
                a[k]
            } else {
                b[k]
            },
    )
}

/// Merging per-node counts is commutative.
pub proof fn lemma_max_merge_commutative(a: Map<NodeId, u64>, b: Map<NodeId, u64>)
    ensures
        max_merge(a, b) == max_merge(b, a),
{
    assert(max_merge(a, b) =~= max_merge(b, a));
}

/// Merging per-node counts is associative.
pub proof fn lemma_max_merge_associative(
    a: Map<NodeId, u64>,
    b: Map<NodeId, u64>,
    c: Map<NodeId, u64>,
)
    ensures
        max_merge(max_merge(a, b), c) == max_merge(a, max_merge(b, c)),
{
    assert(max_merge(max_merge(a, b), c) =~= max_merge(a, max_merge(b, c)));
}

/// Merging per-node counts with themselves changes nothing.
pub proof fn lemma_max_merge_idempotent(a: Map<NodeId, u64>)
    ensures
        max_merge(a, a) == a,
{
    assert(max_merge(a, a) =~= a);
}

/// Merge `src` into `dst`, keeping the larger count for every node.
pub fn merge_max_into(dst: &mut VecMap<NodeId, u64>, src: &VecMap<NodeId, u64>)
    requires
        old(dst).wf(),
        src.wf(),
    ensures
        final(dst).wf(),
        final(dst)@ == max_merge(old(dst)@, src@),
{
    let ghost start = dst@;
    proof {
        src.lemma_entries();
    }
    let n = src.len();
    let mut i: usize = 0;
    while i < n
        invariant
            dst.wf(),
            src.wf(),
            n == src.entry_seq().len(),
            i <= n,
            forall|j: int|
                0 <= j < src.entry_seq().len() ==> #[trigger] src@.contains_key(
                    src.entry_seq()[j].0,
                ) && src@[src.entry_seq()[j].0] == src.entry_seq()[j].1,
            forall|k: NodeId|
                #[trigger] src@.contains_key(k) ==> exists|j: int|
                    0 <= j < src.entry_seq().len() && #[trigger] src.entry_seq()[j].0 == k,
            forall|k: NodeId|
                #[trigger] dst@.contains_key(k) == (start.contains_key(k) || exists|j: int|
                    0 <= j < i && #[trigger] src.entry_seq()[j].0 == k),
            forall|k: NodeId|
                #[trigger] dst@.contains_key(k) ==> dst@[k] == if start.contains_key(k) && (
                exists|j: int| 0 <= j < i && #[trigger] src.entry_seq()[j].0 == k) {
                    if start[k] >= src@[k] {
                        start[k]
                    } else {
                        src@[k]
                    }
                } else if start.contains_key(k) {
                    start[k]
                } else {
                    src@[k]
                },
        decreases n - i,
    {
        let k = *src.key_at(i);
        let v = *src.value_at(i);
        let ghost before = dst@;
        let cur = dst.get(&k);
        match cur {
            Some(d) => {
                if v > *d {
                    dst.insert(k, v);
                }
            },
            None => {
                dst.insert(k, v);
            },
        }
        proof {
            assert forall|kx: NodeId| #[trigger] dst@.contains_key(kx) == (start.contains_key(kx)
                || exists|j: int| 0 <= j < i + 1 && #[trigger] src.entry_seq()[j].0 == kx) by {
                if kx == k {
                    assert(src.entry_seq()[i as int].0 == kx);
                } else {
                    if exists|j: int| 0 <= j < i + 1 && #[trigger] src.entry_seq()[j].0 == kx {
                        let j = choose|j: int| 0 <= j < i + 1 && #[trigger] src.entry_seq()[j].0 == kx;
                        assert(j != i);
                    }
                }
            }
            assert forall|kx: NodeId| #[trigger] dst@.contains_key(kx) implies dst@[kx] == if start.contains_key(kx) && (
            exists|j: int| 0 <= j < i + 1 && #[trigger] src.entry_seq()[j].0 == kx) {
                if start[kx] >= src@[kx] {
                    start[kx]
                } else {
                    src@[kx]
                }
            } else if start.contains_key(kx) {
                start[kx]
            } else {
                src@[kx]
            } by {
                if kx == k {
                    assert(src.entry_seq()[i as int].0 == kx);
                    assert(src@.contains_key(src.entry_seq()[i as int].0));
                    assert(src@[k] == v);
                    if exists|j: int| 0 <= j < i && #[trigger] src.entry_seq()[j].0 == kx {
                        let j = choose|j: int| 0 <= j < i && #[trigger] src.entry_seq()[j].0 == kx;
                        src.lemma_entries();
                        assert(src.entry_seq()[j].0 != src.entry_seq()[i as int].0);
                    }
                } else {
                    if exists|j: int| 0 <= j < i + 1 && #[trigger] src.entry_seq()[j].0 == kx {
                        let j = choose|j: int| 0 <= j < i + 1 && #[trigger] src.entry_seq()[j].0 == kx;
                        assert(j != i);
                    }
                }
            }
        }
        i = i + 1;
    }
    proof {
        assert forall|k: NodeId| src@.contains_key(k) == (exists|j: int|
            0 <= j < n && #[trigger] src.entry_seq()[j].0 == k) by {
            if exists|j: int| 0 <= j < n && #[trigger] src.entry_seq()[j].0 == k {
                let j = choose|j: int| 0 <= j < n && #[trigger] src.entry_seq()[j].0 == k;
                assert(src@.contains_key(src.entry_seq()[j].0));
            }
        }
        assert(dst@ =~= max_merge(start, src@));
    }
}

/// The entries of `m` listed once each in ascending node order.
pub open spec fn sorted_listing(s: Seq<(NodeId, u64)>, m: Map<NodeId, u64>) -> bool {
    &&& ids_strictly_sorted(s.map_values(|e: (NodeId, u64)| e.0))
    &&& forall|i: int| 0 <= i < s.len() ==> #[trigger] m.contains_key(s[i].0) && m[s[i].0] == s[i].1
    &&& forall|n: NodeId| #[trigger] m.contains_key(n) ==> exists|i: int| 0 <= i < s.len() && s[i].0 == n
}

/// The listing of a map's entries in ascending node order.
pub open spec fn canonical_listing(m: Map<NodeId, u64>) -> Seq<(NodeId, u64)> {
    choose|s: Seq<(NodeId, u64)>| sorted_listing(s, m)
}

proof fn lemma_listing_prefix(s1: Seq<(NodeId, u64)>, s2: Seq<(NodeId, u64)>, m: Map<NodeId, u64>, n: int)
    requires
        sorted_listing(s1, m),
        sorted_listing(s2, m),
        0 <= n <= s1.len(),
        n <= s2.len(),
    ensures
        forall|j: int| 0 <= j < n ==> s1[j] == s2[j],
    decreases n,
{
    if n > 0 {
        lemma_listing_prefix(s1, s2, m, n - 1);
        let i = n - 1;
        let k1 = s1.map_values(|e: (NodeId, u64)| e.0);
        let k2 = s2.map_values(|e: (NodeId, u64)| e.0);
        assert(m.contains_key(s1[i].0));
        let j = choose|j: int| 0 <= j < s2.len() && s2[j].0 == s1[i].0;
        assert(m.contains_key(s2[i].0));
        let k = choose|k: int| 0 <= k < s1.len() && s1[k].0 == s2[i].0;
        if j < i {
            assert(k1[j] == k1[i]);
            crate::ids::lemma_id_order(k1[j], k1[i], k1[i]);
        }
        if k < i {
            assert(k2[k] == k2[i]);
            crate::ids::lemma_id_order(k2[k], k2[i], k2[i]);
        }
        if j > i && k > i {
            assert(crate::ids::id_lt(k1[i], k1[k]));
            assert(crate::ids::id_lt(k2[i], k2[j]));
            crate::ids::lemma_id_order(k1[i], k2[i], k1[i]);
        }
        if j > i && k == i {
        }
        if j == i {
        }
        assert(s1[i].0 == s2[i].0);
    }
}

/// There is exactly one ascending listing of a map's entries.
pub proof fn lemma_sorted_listing_unique(s1: Seq<(NodeId, u64)>, s2: Seq<(NodeId, u64)>, m: Map<NodeId, u64>)
    requires
        sorted_listing(s1, m),
        sorted_listing(s2, m),
    ensures
        s1 == s2,
{
    let n = if s1.len() <= s2.len() { s1.len() } else { s2.len() };
    lemma_listing_prefix(s1, s2, m, n as int);
    let k1 = s1.map_values(|e: (NodeId, u64)| e.0);
    let k2 = s2.map_values(|e: (NodeId, u64)| e.0);
    if s1.len() > s2.len() {
        let i = s2.len() as int;
        assert(m.contains_key(s1[i].0));
        let j = choose|j: int| 0 <= j < s2.len() && s2[j].0 == s1[i].0;
        assert(k1[j] == k1[i]);
        crate::ids::lemma_id_order(k1[j], k1[i], k1[i]);
    }
    if s2.len() > s1.len() {
        let i = s1.len() as int;
        assert(m.contains_key(s2[i].0));
        let j = choose|j: int| 0 <= j < s1.len() && s1[j].0 == s2[i].0;
        assert(k2[j] == k2[i]);
        crate::ids::lemma_id_order(k2[j], k2[i], k2[i]);
    }
    assert(s1 =~= s2);
}

/// A listing in ascending order is the canonical listing.
pub proof fn lemma_canonical_listing(s: Seq<(NodeId, u64)>, m: Map<NodeId, u64>)
    requires
        sorted_listing(s, m),
    ensures
        canonical_listing(m) == s,
{
    lemma_sorted_listing_unique(canonical_listing(m), s, m);
}

/// The entries of a count map in ascending node order.
pub fn sorted_entries(m: &VecMap<NodeId, u64>) -> (r: Vec<(NodeId, u64)>)
    requires
        m.wf(),
    ensures
        sorted_listing(r@, m@),
{
    proof {
        m.lemma_entries();
    }
    let n = m.len();
    let mut keys: Vec<NodeId> = Vec::new();
    let mut i: usize = 0;
    while i < n
        invariant
            m.wf(),
            n == m.entry_seq().len(),
            i <= n,
            keys@.len() == i,
            forall|j: int| 0 <= j < i ==> keys@[j] == #[trigger] m.entry_seq()[j].0,
        decreases n - i,
    {
        keys.push(*m.key_at(i));
        i = i + 1;
    }
    let sorted = sort_ids(&keys);
    proof {
        m.lemma_entries();
        assert(keys@.no_duplicates()) by {
            assert forall|a: int, b: int| 0 <= a < keys@.len() && 0 <= b < keys@.len() && a != b implies keys@[a] != keys@[b] by {
                assert(m.entry_seq()[a].0 != m.entry_seq()[b].0);
            }
        }
        lemma_sorted_permutation_strict(sorted@, keys@);
        assert forall|x: int| 0 <= x < keys@.len() implies #[trigger] m@.contains_key(keys@[x]) by {
            assert(keys@[x] == m.entry_seq()[x].0);
        }
    }
    let mut r: Vec<(NodeId, u64)> = Vec::new();
    let mut j: usize = 0;
    while j < sorted.len()
        invariant
            m.wf(),
            j <= sorted@.len(),
            r@.len() == j,
            sorted@.to_set() == keys@.to_set(),
            forall|x: int| 0 <= x < keys@.len() ==> #[trigger] m@.contains_key(keys@[x]),
            forall|x: int| 0 <= x < j ==> r@[x].0 == #[trigger] sorted@[x] && m@.contains_key(r@[x].0) && m@[r@[x].0] == r@[x].1,
        decreases sorted@.len() - j,
    {
        let k = sorted[j];
        proof {
            assert(sorted@.to_set().contains(sorted@[j as int]));
            let x = choose|x: int| 0 <= x < keys@.len() && keys@[x] == k;
            assert(m@.contains_key(keys@[x]));
        }
        let v = match m.get(&k) {
            Some(v) => *v,
            None => 0,
        };
        r.push((k, v));
        j = j + 1;
    }
    proof {
        assert(r@.map_values(|e: (NodeId, u64)| e.0) =~= sorted@);
        assert(ids_strictly_sorted(r@.map_values(|e: (NodeId, u64)| e.0)));
        assert forall|x: int| 0 <= x < r@.len() implies #[trigger] m@.contains_key(r@[x].0) && m@[r@[x].0] == r@[x].1 by {
            assert(r@[x].0 == sorted@[x]);
        }
        assert forall|nd: NodeId| #[trigger] m@.contains_key(nd) implies exists|x: int| 0 <= x < r@.len() && r@[x].0 == nd by {
            let a = choose|a: int| 0 <= a < m.entry_seq().len() && #[trigger] m.entry_seq()[a].0 == nd;
            assert(keys@[a] == nd);
            assert(keys@.to_set().contains(nd));
            let b = choose|b: int| 0 <= b < sorted@.len() && sorted@[b] == nd;
            assert(r@[b].0 == nd);
        }
    }
    r
}

/// Canonical byte encoding of count entries: each node's 32 bytes followed
/// by its count in little-endian order.
pub open spec fn counts_encoding(s: Seq<(NodeId, u64)>) -> Seq<u8>
    decreases s.len(),
{
    if s.len() == 0 {
        Seq::empty()
    } else {
        counts_encoding(s.drop_last()) + s.last().0@ + le_bytes_u64(s.last().1)
    }
}

/// Encode count entries as `counts_encoding` describes.
pub fn encode_counts(s: &Vec<(NodeId, u64)>) -> (r: Vec<u8>)
    ensures
        r@ == counts_encoding(s@),
{
    let mut out: Vec<u8> = Vec::new();
    let mut i: usize = 0;
    while i < s.len()
        invariant
            i <= s@.len(),
            out@ == counts_encoding(s@.subrange(0, i as int)),
        decreases s@.len() - i,
    {
        let (k, v) = s[i];
        crate::crypto::append_bytes(&mut out, &k);
        push_le_u64(&mut out, v);
        proof {
            let p = s@.subrange(0, i + 1);
            assert(p.drop_last() =~= s@.subrange(0, i as int));
        }
        i = i + 1;
    }
    proof {
        assert(s@.subrange(0, s@.len() as int) =~= s@);
    }
    out
}

/// `a` is pointwise no greater than `b` (missing entries count as zero).
pub open spec fn counts_le(a: Map<NodeId, u64>, b: Map<NodeId, u64>) -> bool {
    forall|n: NodeId| #[trigger] count_at(a, n) <= count_at(b, n)
}

/// Whether every count of `a` is at most the matching count of `b`.
pub fn counts_dominated(a: &VecMap<NodeId, u64>, b: &VecMap<NodeId, u64>) -> (r: bool)
    requires
        a.wf(),
        b.wf(),
    ensures
        r == counts_le(a@, b@),
{
    proof {
        a.lemma_entries();
    }
    let n = a.len();
    let mut i: usize = 0;
    while i < n
        invariant
            a.wf(),
            b.wf(),
            n == a.entry_seq().len(),
            i <= n,
            forall|j: int|
                0 <= j < a.entry_seq().len() ==> #[trigger] a@.contains_key(a.entry_seq()[j].0)
                    && a@[a.entry_seq()[j].0] == a.entry_seq()[j].1,
            forall|j: int|
                0 <= j < i ==> count_at(a@, #[trigger] a.entry_seq()[j].0) <= count_at(
                    b@,
                    a.entry_seq()[j].0,
                ),
        decreases n - i,
    {
        let k = a.key_at(i);
        let v = *a.value_at(i);
        let w = match b.get(k) {
            Some(x) => *x,
            None => 0,
        };
        if v > w {
            proof {
                assert(count_at(a@, *k) > count_at(b@, *k));
            }
            return false;
        }
        i = i + 1;
    }
    proof {
        a.lemma_entries();
        assert forall|nd: NodeId| #[trigger] count_at(a@, nd) <= count_at(b@, nd) by {
            if a@.contains_key(nd) {
                let j = choose|j: int| 0 <= j < a.entry_seq().len() && #[trigger] a.entry_seq()[j].0 == nd;
                assert(count_at(a@, a.entry_seq()[j].0) <= count_at(b@, a.entry_seq()[j].0));
            }
        }
    }
    true
}

/// A vector clock: one logical counter per node.
pub struct VectorClock {
    clocks: VecMap<NodeId, u64>,
}

impl View for VectorClock {
    type V = Map<NodeId, u64>;

    closed spec fn view(&self) -> Map<NodeId, u64> {
        self.clocks@
    }
}

/// `a` causally precedes `b`: no component is larger and the clocks differ
/// in at least one component.
pub open spec fn vc_happened_before(a: Map<NodeId, u64>, b: Map<NodeId, u64>) -> bool {
    counts_le(a, b) && !counts_le(b, a)
}

/// Neither clock is below the other.
pub open spec fn vc_concurrent(a: Map<NodeId, u64>, b: Map<NodeId, u64>) -> bool {
    !counts_le(a, b) && !counts_le(b, a)
}

impl VectorClock {
    /// Internal consistency.
    #[verifier::type_invariant]
    spec fn inv(&self) -> bool {
        self.clocks.wf()
    }


    /// An empty clock.
    pub fn new() -> (r: Self)
        ensures
            r@ == Map::<NodeId, u64>::empty(),
    {
        VectorClock { clocks: VecMap::new() }
    }

    /// The counter for `node` (zero when absent).
    pub fn get(&self, node: &NodeId) -> (r: u64)
        ensures
            r == count_at(self@, *node),
    {
        proof {
            use_type_invariant(self);
        }
        match self.clocks.get(node) {
            Some(v) => *v,
            None => 0,
        }
    }

    /// Set the counter for `node`.
    pub fn set(&mut self, node: NodeId, value: u64)
        ensures
            final(self)@ == old(self)@.insert(node, value),
    {
        proof {
            use_type_invariant(&*self);
        }
        let mut c = VecMap::new();
        std::mem::swap(&mut c, &mut self.clocks);
        c.insert(node, value);
        self.clocks = c;
    }

    /// Advance the counter for `node` by one, returning the new value, or
    /// `None` (clock unchanged) when the counter is already at `u64::MAX`.
    pub fn increment(&mut self, node: NodeId) -> (r: Option<u64>)
        ensures
            count_at(old(self)@, node) == u64::MAX ==> r.is_none() && final(self)@ == old(self)@,
            count_at(old(self)@, node) < u64::MAX ==> r == Some((count_at(old(self)@, node) + 1) as u64)
                && final(self)@ == old(self)@.insert(node, (count_at(old(self)@, node) + 1) as u64),
    {
        let cur = self.get(&node);
        if cur == u64::MAX {
            return None;
        }
        self.set(node, cur + 1);
        Some(cur + 1)
    }

    /// Merge `other` into this clock (pointwise maximum).
    pub fn merge(&mut self, other: &VectorClock)
        ensures
            final(self)@ == max_merge(old(self)@, other@),
    {
        proof {
            use_type_invariant(&*self);
            use_type_invariant(other);
        }
        let mut c = VecMap::new();
        std::mem::swap(&mut c, &mut self.clocks);
        merge_max_into(&mut c, &other.clocks);
        self.clocks = c;
    }

    /// A merged copy of this clock and `other`.
    pub fn merged(&self, other: &VectorClock) -> (r: VectorClock)
        ensures
            r@ == max_merge(self@, other@),
    {
        let mut r = self.clone_clock();
        r.merge(other);
        r
    }

    /// A copy of this clock.
    pub fn clone_clock(&self) -> (r: VectorClock)
        ensures
            r@ == self@,
    {
        let mut r = VectorClock::new();
        r.merge(self);
        proof {
            assert(max_merge(Map::<NodeId, u64>::empty(), self@) =~= self@);
        }
        r
    }

    /// No component of this clock exceeds the matching component of `other`.
    pub fn le(&self, other: &VectorClock) -> (r: bool)
        ensures
            r == counts_le(self@, other@),
    {
        proof {
            use_type_invariant(self);
            use_type_invariant(other);
        }
        counts_dominated(&self.clocks, &other.clocks)
    }

    /// This clock causally precedes `other`.
    pub fn happened_before(&self, other: &VectorClock) -> (r: bool)
        ensures
            r == vc_happened_before(self@, other@),
    {
        self.le(other) && !other.le(self)
    }

    /// `other` causally precedes this clock.
    pub fn happened_after(&self, other: &VectorClock) -> (r: bool)
        ensures
            r == vc_happened_before(other@, self@),
    {
        other.happened_before(self)
    }

    /// Neither clock precedes or equals the other.
    pub fn concurrent(&self, other: &VectorClock) -> (r: bool)
        ensures
            r == vc_concurrent(self@, other@),
    {
        !self.le(other) && !other.le(self)
    }

    /// The per-node entries in ascending node order.
    pub fn sorted(&self) -> (r: Vec<(NodeId, u64)>)
        ensures
            sorted_listing(r@, self@),
            r@ == canonical_listing(self@),
    {
        proof {
            use_type_invariant(self);
        }
        let r = sorted_entries(&self.clocks);
        proof {
            lemma_canonical_listing(r@, self@);
        }
        r
    }

    /// The per-node entries, in storage order.
    pub fn entries(&self) -> (r: Vec<(NodeId, u64)>)
        ensures
            r@.len() == self@.len(),
            forall|i: int| 0 <= i < r@.len() ==> #[trigger] self@.contains_key(r@[i].0) && self@[r@[i].0] == r@[i].1,
            forall|n: NodeId| #[trigger] self@.contains_key(n) ==> exists|i: int| 0 <= i < r@.len() && r@[i].0 == n,
    {
        proof {
            use_type_invariant(self);
            self.clocks.lemma_entries();
        }
        let mut r: Vec<(NodeId, u64)> = Vec::new();
        let mut i: usize = 0;
        let n = self.clocks.len();
        while i < n
            invariant
                self.clocks.wf(),
                n == self.clocks.entry_seq().len(),
                i <= n,
                r@.len() == i,
                forall|j: int| 0 <= j < i ==> r@[j] == #[trigger] self.clocks.entry_seq()[j],
            decreases n - i,
        {
            r.push((*self.clocks.key_at(i), *self.clocks.value_at(i)));
            i = i + 1;
        }
        proof {
            self.clocks.lemma_entries();
            assert forall|j: int| 0 <= j < r@.len() implies #[trigger] self@.contains_key(r@[j].0) && self@[r@[j].0] == r@[j].1 by {
                assert(r@[j] == self.clocks.entry_seq()[j]);
            }
            assert forall|nd: NodeId| #[trigger] self@.contains_key(nd) implies exists|i: int| 0 <= i < r@.len() && r@[i].0 == nd by {
                let j = choose|j: int| 0 <= j < self.clocks.entry_seq().len() && #[trigger] self.clocks.entry_seq()[j].0 == nd;
                assert(r@[j].0 == nd);
            }
        }
        r
    }
}

/// Happened-before is irreflexive.
pub proof fn lemma_happened_before_irreflexive(a: Map<NodeId, u64>)
    ensures
        !vc_happened_before(a, a),
{
}

/// Happened-before is transitive.
pub proof fn lemma_happened_before_transitive(
    a: Map<NodeId, u64>,
    b: Map<NodeId, u64>,
    c: Map<NodeId, u64>,
)
    requires
        vc_happened_before(a, b),
        vc_happened_before(b, c),
    ensures
        vc_happened_before(a, c),
{
    assert(counts_le(a, c)) by {
        assert forall|n: NodeId| #[trigger] count_at(a, n) <= count_at(c, n) by {
            assert(count_at(a, n) <= count_at(b, n));
            assert(count_at(b, n) <= count_at(c, n));
        }
    }
    if counts_le(c, a) {
        assert(counts_le(b, a)) by {
            assert forall|n: NodeId| #[trigger] count_at(b, n) <= count_at(a, n) by {
                assert(count_at(b, n) <= count_at(c, n));
                assert(count_at(c, n) <= count_at(a, n));
            }
        }
    }
}

/// Concurrency is symmetric.
pub proof fn lemma_concurrent_symmetric(a: Map<NodeId, u64>, b: Map<NodeId, u64>)
    ensures
        vc_concurrent(a, b) == vc_concurrent(b, a),
{
}

/// The merge of two clocks is their least upper bound.
pub proof fn lemma_max_merge_least_upper_bound(
    a: Map<NodeId, u64>,
    b: Map<NodeId, u64>,
    c: Map<NodeId, u64>,
)
    ensures
        counts_le(a, max_merge(a, b)),
        counts_le(b, max_merge(a, b)),
        counts_le(a, c) && counts_le(b, c) ==> counts_le(max_merge(a, b), c),
{
    let m = max_merge(a, b);
    assert forall|n: NodeId| #[trigger] count_at(a, n) <= count_at(m, n) by {}
    assert forall|n: NodeId| #[trigger] count_at(b, n) <= count_at(m, n) by {}
    if counts_le(a, c) && counts_le(b, c) {
        assert forall|n: NodeId| #[trigger] count_at(m, n) <= count_at(c, n) by {
            assert(count_at(a, n) <= count_at(c, n));
            assert(count_at(b, n) <= count_at(c, n));
        }
    }
}

} // verus!
