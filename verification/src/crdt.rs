//! State-based CRDTs.
//!
//! A [`GCounter`] is a grow-only counter: each node keeps its own count, the
//! value is the sum of all counts, and merging takes the larger count per
//! node. Merging is commutative, associative and idempotent, so replicas
//! that exchange state in any order, with any duplicates, converge.
use vstd::prelude::*;
use vstd::string::StringSliceAdditionalSpecFns;
use crate::ids::NodeId;
use crate::vec_map::VecMap;
use crate::vector_clock::count_at;
use crate::vector_clock::counts_le;
use crate::vector_clock::max_merge;
use crate::vector_clock::merge_max_into;
use crate::vector_clock::sorted_entries;
use crate::vector_clock::sorted_listing;
use crate::vector_clock::canonical_listing;
use crate::vector_clock::lemma_canonical_listing;
use crate::vector_clock::counts_encoding;
use crate::vector_clock::encode_counts;
use crate::vector_clock::VectorClock;
use crate::vector_clock::vc_happened_before;
use crate::map_total::map_total;
use crate::map_total::entries_total;
use crate::map_total::lemma_entries_total;
use crate::map_total::lemma_total_insert;
use crate::map_total::lemma_total_monotone;
use crate::map_total::lemma_total_nonneg;
use crate::crypto::sha256;
use crate::crypto::sha256_digest;
use crate::crypto::blake3_hash_domain;
use crate::crypto::domain_hash;

verus! {

/// Errors that can occur during CRDT operations.
#[derive(Debug, Clone, Copy, PartialEq, Eq)]
pub enum CrdtError {
    /// Operation would cause an overflow.
    Overflow,
}

/// State-based CRDT: replicas exchange whole states and merge them.
pub trait CvRDT: Sized {
    /// Merge another replica's state into this one.
    fn merge(&mut self, other: &Self);
}

/// A grow-only counter.
pub struct GCounter {
    counts: VecMap<NodeId, u64>,
}

impl View for GCounter {
    type V = Map<NodeId, u64>;

    closed spec fn view(&self) -> Map<NodeId, u64> {
        self.counts@
    }
}

/// The state hash of a counter with the given counts.
pub open spec fn gcounter_hash(m: Map<NodeId, u64>) -> [u8; 32] {
    sha256_digest(counts_encoding(canonical_listing(m)))
}

/// The value a counter reports: the total, saturated at `u64::MAX`.
pub open spec fn saturated_total(m: Map<NodeId, u64>) -> u64 {
    if map_total(m) <= u64::MAX {
        map_total(m) as u64
    } else {
        u64::MAX
    }
}

impl GCounter {
    #[verifier::type_invariant]
    spec fn inv(&self) -> bool {
        self.counts.wf()
    }

    /// Create a new, empty counter.
    pub fn new() -> (r: Self)
        ensures
            r@ == Map::<NodeId, u64>::empty(),
    {
        GCounter { counts: VecMap::new() }
    }

    /// Add `amount` to the count of `node_id`.
    ///
    /// Fails with `CrdtError::Overflow`, leaving the counter unchanged, if the
    /// node's count would exceed `u64::MAX`.
    pub fn increment(&mut self, node_id: NodeId, amount: u64) -> (r: Result<(), CrdtError>)
        ensures
            count_at(old(self)@, node_id) + amount <= u64::MAX ==> r is Ok && final(self)@
                == old(self)@.insert(node_id, (count_at(old(self)@, node_id) + amount) as u64),
            count_at(old(self)@, node_id) + amount > u64::MAX ==> r == Err::<(), CrdtError>(
                CrdtError::Overflow,
            ) && final(self)@ == old(self)@,
    {
        proof {
            use_type_invariant(&*self);
        }
        let cur = self.node_value(&node_id);
        if cur > u64::MAX - amount {
            return Err(CrdtError::Overflow);
        }
        let mut c = VecMap::new();
        std::mem::swap(&mut c, &mut self.counts);
        c.insert(node_id, cur + amount);
        self.counts = c;
        Ok(())
    }

    /// The sum of all node counts, saturated at `u64::MAX`.
    pub fn value(&self) -> (r: u64)
        ensures
            r == saturated_total(self@),
    {
        match self.value_checked() {
            Ok(v) => v,
            Err(_) => u64::MAX,
        }
    }

    /// The sum of all node counts, or `CrdtError::Overflow` if it exceeds `u64::MAX`.
    pub fn value_checked(&self) -> (r: Result<u64, CrdtError>)
        ensures
            map_total(self@) <= u64::MAX ==> r == Ok::<u64, CrdtError>(map_total(self@) as u64),
            map_total(self@) > u64::MAX ==> r == Err::<u64, CrdtError>(CrdtError::Overflow),
    {
        proof {
            use_type_invariant(self);
            self.counts.lemma_entries();
            let es = self.counts.entry_seq();
            assert forall|i: int| 0 <= i < es.len() implies #[trigger] self@.contains_key(es[i].0) && self@[es[i].0] == es[i].1 by {
                assert(self.counts@.contains_key(es[i].0));
            }
            assert forall|k: NodeId| #[trigger] self@.contains_key(k) implies exists|i: int| 0 <= i < es.len() && es[i].0 == k by {
                assert(self.counts@.contains_key(k));
                let i = choose|i: int| 0 <= i < es.len() && #[trigger] es[i].0 == k;
            }
            lemma_entries_total(es, self@);
        }
        let n = self.counts.len();
        let mut acc: u64 = 0;
        let mut i: usize = 0;
        while i < n
            invariant
                self.counts.wf(),
                n == self.counts.entry_seq().len(),
                i <= n,
                acc == entries_total(self.counts.entry_seq().subrange(0, i as int)),
                entries_total(self.counts.entry_seq()) == map_total(self@),
            decreases n - i,
        {
            let v = *self.counts.value_at(i);
            proof {
                let s = self.counts.entry_seq();
                assert(s.subrange(0, i + 1).drop_last() =~= s.subrange(0, i as int));
                lemma_prefix_total_le(s, i as int + 1);
            }
            if acc > u64::MAX - v {
                return Err(CrdtError::Overflow);
            }
            acc = acc + v;
            i = i + 1;
        }
        proof {
            assert(self.counts.entry_seq().subrange(0, n as int) =~= self.counts.entry_seq());
        }
        Ok(acc)
    }

    /// The count recorded for `node_id` (zero when none).
    pub fn node_value(&self, node_id: &NodeId) -> (r: u64)
        ensures
            r == count_at(self@, *node_id),
    {
        proof {
            use_type_invariant(self);
        }
        match self.counts.get(node_id) {
            Some(v) => *v,
            None => 0,
        }
    }

    /// All node contributions, in ascending node order.
    pub fn contributions(&self) -> (r: Vec<(NodeId, u64)>)
        ensures
            sorted_listing(r@, self@),
            r@ == canonical_listing(self@),
    {
        proof {
            use_type_invariant(self);
        }
        let r = sorted_entries(&self.counts);
        proof {
            lemma_canonical_listing(r@, self@);
        }
        r
    }

    /// SHA-256 over each `(node, count)` in ascending node order: the node's
    /// 32 bytes followed by the count's little-endian bytes.
    pub fn state_hash(&self) -> (r: [u8; 32])
        ensures
            r == gcounter_hash(self@),
    {
        let entries = self.contributions();
        let bytes = encode_counts(&entries);
        sha256(bytes.as_slice())
    }

    /// Number of nodes that have contributed.
    pub fn node_count(&self) -> (r: usize)
        ensures
            r == self@.len(),
    {
        proof {
            use_type_invariant(self);
        }
        self.counts.len()
    }

    /// A merged copy of this counter and `other`.
    pub fn merged(&self, other: &Self) -> (r: Self)
        ensures
            r@ == max_merge(self@, other@),
    {
        let mut r = GCounter::new();
        r.merge(self);
        r.merge(other);
        proof {
            assert(max_merge(Map::<NodeId, u64>::empty(), self@) =~= self@);
        }
        r
    }

    /// Merge `other` into this counter: keep the larger count for each node.
    pub fn merge(&mut self, other: &Self)
        ensures
            final(self)@ == max_merge(old(self)@, other@),
    {
        proof {
            use_type_invariant(&*self);
            use_type_invariant(other);
        }
        let mut c = VecMap::new();
        std::mem::swap(&mut c, &mut self.counts);
        merge_max_into(&mut c, &other.counts);
        self.counts = c;
    }
}

impl CvRDT for GCounter {
    fn merge(&mut self, other: &Self)
        ensures
            final(self)@ == max_merge(old(self)@, other@),
    {
        GCounter::merge(self, other)
    }
}

proof fn lemma_prefix_total_le(s: Seq<(NodeId, u64)>, i: int)
    requires
        0 <= i <= s.len(),
    ensures
        entries_total(s.subrange(0, i)) <= entries_total(s),
        entries_total(s.subrange(0, i)) >= 0,
    decreases s.len(),
{
    if s.len() > 0 {
        if i == s.len() {
            assert(s.subrange(0, i) =~= s);
            lemma_prefix_total_le(s.drop_last(), s.len() - 1);
            assert(s.drop_last().subrange(0, s.len() - 1) =~= s.drop_last());
        } else {
            lemma_prefix_total_le(s.drop_last(), i);
            assert(s.drop_last().subrange(0, i) =~= s.subrange(0, i));
        }
    }
}

/// Merging counters is commutative.
pub proof fn lemma_gcounter_merge_commutative(a: GCounter, b: GCounter)
    ensures
        max_merge(a@, b@) == max_merge(b@, a@),
{
    crate::vector_clock::lemma_max_merge_commutative(a@, b@);
}

/// Merging counters is associative.
pub proof fn lemma_gcounter_merge_associative(a: GCounter, b: GCounter, c: GCounter)
    ensures
        max_merge(max_merge(a@, b@), c@) == max_merge(a@, max_merge(b@, c@)),
{
    crate::vector_clock::lemma_max_merge_associative(a@, b@, c@);
}

/// Merging a counter with itself changes nothing.
pub proof fn lemma_gcounter_merge_idempotent(a: GCounter)
    ensures
        max_merge(a@, a@) == a@,
{
    crate::vector_clock::lemma_max_merge_idempotent(a@);
}

/// The value never decreases: not by merging in another counter's state
/// (of finitely many nodes), and not by a successful increment.
pub proof fn lemma_gcounter_monotone(
    a: Map<NodeId, u64>,
    b: Map<NodeId, u64>,
    node: NodeId,
    amount: u64,
)
    requires
        a.dom().finite(),
        b.dom().finite(),
    ensures
        map_total(a) <= map_total(max_merge(a, b)),
        saturated_total(a) <= saturated_total(max_merge(a, b)),
        count_at(a, node) + amount <= u64::MAX ==> map_total(a) + amount == map_total(
            a.insert(node, (count_at(a, node) + amount) as u64),
        ),
{
    let m = max_merge(a, b);
    assert(m.dom() =~= a.dom().union(b.dom()));
    crate::vector_clock::lemma_max_merge_least_upper_bound(a, b, m);
    lemma_total_monotone(a, m);
    lemma_total_nonneg(a);
    if map_total(a) <= u64::MAX {
        assert(saturated_total(a) == map_total(a));
    } else {
        assert(saturated_total(max_merge(a, b)) == u64::MAX);
    }
    lemma_total_insert(a, node, (count_at(a, node) + amount) as u64);
}

/// Account balance kept as a grow-only counter, with the node that last
/// updated it and the vector clock of the last update.
pub struct AccountBalance {
    counter: GCounter,
    last_updater: Option<NodeId>,
    vector_clock: VectorClock,
}

/// The domain tag of the account-balance state hash.
pub open spec fn account_balance_domain() -> Seq<u8> {
    "omnia-account-balance".spec_bytes()
}

impl AccountBalance {
    /// The counts of the underlying counter.
    pub closed spec fn counts(&self) -> Map<NodeId, u64> {
        self.counter@
    }

    /// The node that last updated the balance.
    pub closed spec fn updater(&self) -> Option<NodeId> {
        self.last_updater
    }

    /// The vector clock of the last update.
    pub closed spec fn clock(&self) -> Map<NodeId, u64> {
        self.vector_clock@
    }

    /// A new, zero balance.
    pub fn new() -> (r: Self)
        ensures
            r.counts() == Map::<NodeId, u64>::empty(),
            r.updater() == None::<NodeId>,
            r.clock() == Map::<NodeId, u64>::empty(),
    {
        AccountBalance { counter: GCounter::new(), last_updater: None, vector_clock: VectorClock::new() }
    }

    /// Increment the balance for a node.
    pub fn increment(&mut self, node_id: NodeId, amount: u64) -> (r: Result<(), CrdtError>)
        ensures
            count_at(old(self).counts(), node_id) + amount <= u64::MAX ==> {
                &&& r is Ok
                &&& final(self).counts() == old(self).counts().insert(
                    node_id,
                    (count_at(old(self).counts(), node_id) + amount) as u64,
                )
                &&& final(self).updater() == Some(node_id)
                &&& count_at(old(self).clock(), node_id) < u64::MAX ==> final(self).clock()
                    == old(self).clock().insert(
                    node_id,
                    (count_at(old(self).clock(), node_id) + 1) as u64,
                )
                &&& count_at(old(self).clock(), node_id) == u64::MAX ==> final(self).clock()
                    == old(self).clock()
            },
            count_at(old(self).counts(), node_id) + amount > u64::MAX ==> r == Err::<(), CrdtError>(
                CrdtError::Overflow,
            ) && final(self).counts() == old(self).counts() && final(self).updater() == old(
                self,
            ).updater() && final(self).clock() == old(self).clock(),
    {
        match self.counter.increment(node_id, amount) {
            Ok(()) => {},
            Err(e) => {
                return Err(e);
            },
        }
        self.last_updater = Some(node_id);
        let _ = self.vector_clock.increment(node_id);
        Ok(())
    }

    /// The total balance.
    pub fn value(&self) -> (r: u64)
        ensures
            r == saturated_total(self.counts()),
    {
        self.counter.value()
    }

    /// The vector clock of the last update.
    pub fn last_update(&self) -> (r: &VectorClock)
        ensures
            r@ == self.clock(),
    {
        &self.vector_clock
    }

    /// Merge another replica's balance: counters and clocks merge pointwise;
    /// the updater is taken from `other` when the merged clock precedes
    /// `other`'s clock.
    pub fn merge(&mut self, other: &Self)
        ensures
            final(self).counts() == max_merge(old(self).counts(), other.counts()),
            final(self).clock() == max_merge(old(self).clock(), other.clock()),
            final(self).updater() == if vc_happened_before(
                max_merge(old(self).clock(), other.clock()),
                other.clock(),
            ) {
                other.updater()
            } else {
                old(self).updater()
            },
    {
        self.counter.merge(&other.counter);
        self.vector_clock = self.vector_clock.merged(&other.vector_clock);
        if self.vector_clock.happened_before(&other.vector_clock) {
            self.last_updater = other.last_updater;
        }
    }

    /// BLAKE3 state hash under the tag `omnia-account-balance` over the
    /// counter's state hash followed by the canonical encoding of the clock.
    pub fn state_hash(&self) -> (r: [u8; 32])
        ensures
            r == domain_hash(
                account_balance_domain(),
                gcounter_hash(self.counts())@ + counts_encoding(canonical_listing(self.clock())),
            ),
    {
        let counter_hash = self.counter.state_hash();
        let vc_entries = self.vector_clock.sorted();
        let vc_bytes = encode_counts(&vc_entries);
        let mut data: Vec<u8> = Vec::new();
        crate::crypto::append_bytes(&mut data, &counter_hash);
        crate::crypto::append_bytes(&mut data, vc_bytes.as_slice());
        blake3_hash_domain("omnia-account-balance".as_bytes(), data.as_slice())
    }
}

impl CvRDT for AccountBalance {
    fn merge(&mut self, other: &Self)
        ensures
            final(self).counts() == max_merge(old(self).counts(), other.counts()),
            final(self).clock() == max_merge(old(self).clock(), other.clock()),
            final(self).updater() == if vc_happened_before(
                max_merge(old(self).clock(), other.clock()),
                other.clock(),
            ) {
                other.updater()
            } else {
                old(self).updater()
            },
    {
        AccountBalance::merge(self, other)
    }
}

} // verus!
