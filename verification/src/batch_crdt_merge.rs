//! Batches of operations on named replicated values, applied atomically.
//!
//! A [`BatchCrdtMerger`] keeps grow-only counters, observed-remove sets and
//! last-write-wins registers, each under a name. A batch is validated as a
//! whole before any of it is applied: either every operation takes effect,
//! in order, or the merger is left exactly as it was.
use vstd::prelude::*;
use crate::ids::NodeId;
use crate::ids::id_eq;
use crate::bytes_map::BytesMap;
use crate::bytes_map::bytes_eq;
use crate::bytes_map::bytes_copy;
use crate::crdt::GCounter;
use crate::crdt::saturated_total;
use crate::or_set::OrSet;
use crate::or_set::OrSetView;
use crate::or_set::orset_add;
use crate::or_set::orset_remove;
use crate::or_set::orset_merge;
use crate::or_set::orset_contains;
use crate::lww_register::LwwRegister;
use crate::lww_register::LwwView;
use crate::lww_register::lww_merge;
use crate::vector_clock::count_at;
use crate::vector_clock::max_merge;

verus! {

/// Errors of batch application.
#[derive(Debug, Clone)]
pub enum BatchCrdtError {
    /// One or more operations in the batch failed validation.
    ValidationFailed(String),
    /// Overflow during a counter operation.
    Overflow(String),
    /// The batch is empty.
    EmptyBatch,
    /// The batch has more operations than the merger accepts.
    BatchTooLarge(usize, usize),
    /// An operation failed while being applied.
    OperationFailed {
        /// Index of the failed operation in the batch.
        index: usize,
        /// Reason for the failure.
        reason: String,
    },
}

/// The message of a batch merge error.
pub open spec fn crdt_batch_error_text(e: BatchCrdtError) -> Seq<char> {
    match e {
        BatchCrdtError::ValidationFailed(m) => m@,
        BatchCrdtError::Overflow(m) => m@,
        BatchCrdtError::EmptyBatch => "Empty batch"@,
        BatchCrdtError::BatchTooLarge(_, _) => "Batch too large"@,
        BatchCrdtError::OperationFailed { reason, .. } => reason@,
    }
}

impl BatchCrdtError {
    /// A human-readable description of the error.
    pub fn message(&self) -> (r: String)
        ensures
            r@ == crdt_batch_error_text(*self),
    {
        match self {
            BatchCrdtError::ValidationFailed(m) => m.clone(),
            BatchCrdtError::Overflow(m) => m.clone(),
            BatchCrdtError::EmptyBatch => "Empty batch".to_owned(),
            BatchCrdtError::BatchTooLarge(_, _) => "Batch too large".to_owned(),
            BatchCrdtError::OperationFailed { reason, .. } => reason.clone(),
        }
    }
}

/// Maximum number of operations in a single batch, by default.
pub const MAX_CRDT_BATCH_SIZE: usize = 1000;

/// One operation of a batch.
#[derive(Debug, Clone)]
pub enum CrdtBatchOp {
    /// Increment a grow-only counter by the given amount.
    GCounterIncrement {
        /// The name of the counter.
        key: String,
        /// The node performing the increment.
        node_id: NodeId,
        /// The amount to add.
        amount: u64,
    },
    /// Add an element to an observed-remove set.
    OrSetAdd {
        /// The name of the set.
        key: String,
        /// The node performing the add.
        node_id: NodeId,
        /// The element, as bytes.
        element: Vec<u8>,
    },
    /// Remove an element from an observed-remove set.
    OrSetRemove {
        /// The name of the set.
        key: String,
        /// The element, as bytes.
        element: Vec<u8>,
    },
    /// Write a last-write-wins register.
    LwwRegisterUpdate {
        /// The name of the register.
        key: String,
        /// The writing node.
        node_id: NodeId,
        /// The new value, as bytes.
        value: Vec<u8>,
        /// The timestamp of the write.
        timestamp: u64,
        /// The version of the write.
        version: u64,
    },
}

/// The outcome of an applied batch.
#[derive(Debug, Clone, Copy, PartialEq, Eq)]
pub struct BatchMergeResult {
    /// Number of operations applied.
    pub applied_count: usize,
    /// Number of distinct names the batch touched.
    pub modified_count: usize,
    /// Whether the batch was applied as a whole.
    pub atomic: bool,
}

/// The bytes that stand for a name.
pub open spec fn key_of(s: Seq<char>) -> Seq<u8> {
    vstd::utf8::encode_utf8(s)
}

/// The content of one operation, names given by their bytes.
pub enum OpView {
    Inc(Seq<u8>, NodeId, u64),
    Add(Seq<u8>, NodeId, Seq<u8>),
    Remove(Seq<u8>, Seq<u8>),
    Write(Seq<u8>, NodeId, Seq<u8>, u64, u64),
}

impl View for CrdtBatchOp {
    type V = OpView;

    open spec fn view(&self) -> OpView {
        match self {
            CrdtBatchOp::GCounterIncrement { key, node_id, amount } => OpView::Inc(
                key_of(key@),
                *node_id,
                *amount,
            ),
            CrdtBatchOp::OrSetAdd { key, node_id, element } => OpView::Add(
                key_of(key@),
                *node_id,
                element@,
            ),
            CrdtBatchOp::OrSetRemove { key, element } => OpView::Remove(key_of(key@), element@),
            CrdtBatchOp::LwwRegisterUpdate { key, node_id, value, timestamp, version } =>
                OpView::Write(key_of(key@), *node_id, value@, *timestamp, *version),
        }
    }
}

/// The contents of a batch.
pub open spec fn ops_view(ops: Seq<CrdtBatchOp>) -> Seq<OpView> {
    ops.map_values(|o: CrdtBatchOp| o@)
}

/// The name an operation touches.
pub open spec fn op_key(op: OpView) -> Seq<u8> {
    match op {
        OpView::Inc(k, _, _) => k,
        OpView::Add(k, _, _) => k,
        OpView::Remove(k, _) => k,
        OpView::Write(k, _, _, _, _) => k,
    }
}

/// The names a batch touches.
pub open spec fn batch_keys(ops: Seq<OpView>) -> Set<Seq<u8>> {
    ops.map_values(|o: OpView| op_key(o)).to_set()
}

/// The state of a merger: every named counter, set and register.
pub struct MergerView {
    pub counters: Map<Seq<u8>, Map<NodeId, u64>>,
    pub sets: Map<Seq<u8>, OrSetView>,
    pub registers: Map<Seq<u8>, LwwView>,
}

/// The counter under `k` (empty when there is none).
pub open spec fn counter_at(m: Map<Seq<u8>, Map<NodeId, u64>>, k: Seq<u8>) -> Map<NodeId, u64> {
    if m.contains_key(k) {
        m[k]
    } else {
        Map::empty()
    }
}

/// An empty observed-remove set.
pub open spec fn empty_orset() -> OrSetView {
    OrSetView { adds: Set::empty(), removed: Set::empty() }
}

/// The set under `k` (empty when there is none).
pub open spec fn set_at(m: Map<Seq<u8>, OrSetView>, k: Seq<u8>) -> OrSetView {
    if m.contains_key(k) {
        m[k]
    } else {
        empty_orset()
    }
}

/// A register that has never been written, owned by `w`.
pub open spec fn fresh_register(w: NodeId) -> LwwView {
    LwwView { value: None, timestamp: 0, writer: w, version: 0 }
}

/// The state after one operation.
pub open spec fn apply_op(s: MergerView, op: OpView) -> MergerView {
    match op {
        OpView::Inc(k, n, a) => MergerView {
            counters: s.counters.insert(
                k,
                counter_at(s.counters, k).insert(n, (count_at(counter_at(s.counters, k), n) + a) as u64),
            ),
            sets: s.sets,
            registers: s.registers,
        },
        OpView::Add(k, n, e) => MergerView {
            counters: s.counters,
            sets: s.sets.insert(k, orset_add(set_at(s.sets, k), n, e)),
            registers: s.registers,
        },
        OpView::Remove(k, e) => MergerView {
            counters: s.counters,
            sets: s.sets.insert(k, orset_remove(set_at(s.sets, k), e)),
            registers: s.registers,
        },
        OpView::Write(k, n, v, t, ver) => MergerView {
            counters: s.counters,
            sets: s.sets,
            registers: s.registers.insert(
                k,
                LwwView { value: Some(v), timestamp: t, writer: n, version: ver },
            ),
        },
    }
}

/// The state after a sequence of operations, applied in order.
pub open spec fn apply_ops(s: MergerView, ops: Seq<OpView>) -> MergerView
    decreases ops.len(),
{
    if ops.len() == 0 {
        s
    } else {
        apply_op(apply_ops(s, ops.drop_last()), ops.last())
    }
}

/// What one operation adds to the count of node `n` under `k`.
pub open spec fn inc_amount(op: OpView, k: Seq<u8>, n: NodeId) -> int {
    match op {
        OpView::Inc(k2, n2, a) => if k2 == k && n2 == n {
            a as int
        } else {
            0
        },
        _ => 0,
    }
}

/// The total a sequence of operations adds to the count of `n` under `k`.
pub open spec fn inc_total(ops: Seq<OpView>, k: Seq<u8>, n: NodeId) -> int
    decreases ops.len(),
{
    if ops.len() == 0 {
        0
    } else {
        inc_total(ops.drop_last(), k, n) + inc_amount(ops.last(), k, n)
    }
}

/// Operation `i` passes validation: an increment keeps the node's count,
/// with the earlier increments of the batch, within `u64::MAX`.
pub open spec fn op_valid(s: MergerView, ops: Seq<OpView>, i: int) -> bool {
    match ops[i] {
        OpView::Inc(k, n, a) => count_at(counter_at(s.counters, k), n) + inc_total(ops.take(i), k, n)
            + a <= u64::MAX,
        _ => true,
    }
}

/// Every operation of the batch passes validation.
pub open spec fn batch_valid(s: MergerView, ops: Seq<OpView>) -> bool {
    forall|i: int| 0 <= i < ops.len() ==> #[trigger] op_valid(s, ops, i)
}

/// The merge of two mergers' states, name by name.
pub open spec fn merger_merge(a: MergerView, b: MergerView) -> MergerView {
    MergerView {
        counters: Map::new(
            |k: Seq<u8>| a.counters.contains_key(k) || b.counters.contains_key(k),
            |k: Seq<u8>|
                if b.counters.contains_key(k) {
                    max_merge(counter_at(a.counters, k), b.counters[k])
                } else {
                    a.counters[k]
                },
        ),
        sets: Map::new(
            |k: Seq<u8>| a.sets.contains_key(k) || b.sets.contains_key(k),
            |k: Seq<u8>|
                if b.sets.contains_key(k) {
                    orset_merge(set_at(a.sets, k), b.sets[k])
                } else {
                    a.sets[k]
                },
        ),
        registers: Map::new(
            |k: Seq<u8>| a.registers.contains_key(k) || b.registers.contains_key(k),
            |k: Seq<u8>|
                if b.registers.contains_key(k) {
                    lww_merge(
                        if a.registers.contains_key(k) {
                            a.registers[k]
                        } else {
                            fresh_register(b.registers[k].writer)
                        },
                        b.registers[k],
                    )
                } else {
                    a.registers[k]
                },
        ),
    }
}

/// The state of a merger whose maps are these.
pub open spec fn maps_view(
    gc: Map<Seq<u8>, GCounter>,
    os: Map<Seq<u8>, OrSet>,
    lw: Map<Seq<u8>, LwwRegister>,
) -> MergerView {
    MergerView {
        counters: gc.map_values(|c: GCounter| c@),
        sets: os.map_values(|s: OrSet| s@),
        registers: lw.map_values(|r: LwwRegister| r@),
    }
}

/// Named counters, sets and registers, updated by atomic batches.
pub struct BatchCrdtMerger {
    g_counters: BytesMap<GCounter>,
    or_sets: BytesMap<OrSet>,
    lww_registers: BytesMap<LwwRegister>,
    max_batch_size: usize,
}

impl View for BatchCrdtMerger {
    type V = MergerView;

    closed spec fn view(&self) -> MergerView {
        maps_view(self.g_counters@, self.or_sets@, self.lww_registers@)
    }
}

/// The bytes of a name.
fn key_bytes(key: &str) -> (r: Vec<u8>)
    ensures
        r@ == key_of(key@),
{
    bytes_copy(key.as_bytes())
}

/// The name an operation touches.
fn op_name(op: &CrdtBatchOp) -> (r: &String)
    ensures
        key_of(r@) == op_key(op@),
{
    match op {
        CrdtBatchOp::GCounterIncrement { key, .. } => key,
        CrdtBatchOp::OrSetAdd { key, .. } => key,
        CrdtBatchOp::OrSetRemove { key, .. } => key,
        CrdtBatchOp::LwwRegisterUpdate { key, .. } => key,
    }
}

proof fn lemma_inc_total_step(ops: Seq<OpView>, i: int, k: Seq<u8>, n: NodeId)
    requires
        0 <= i < ops.len(),
    ensures
        inc_total(ops.take(i + 1), k, n) == inc_total(ops.take(i), k, n) + inc_amount(ops[i], k, n),
{
    assert(ops.take(i + 1).drop_last() =~= ops.take(i));
}

proof fn lemma_inc_total_nonneg(ops: Seq<OpView>, k: Seq<u8>, n: NodeId)
    ensures
        inc_total(ops, k, n) >= 0,
    decreases ops.len(),
{
    if ops.len() > 0 {
        lemma_inc_total_nonneg(ops.drop_last(), k, n);
    }
}

proof fn lemma_apply_ops_step(s: MergerView, ops: Seq<OpView>, i: int)
    requires
        0 <= i < ops.len(),
    ensures
        apply_ops(s, ops.take(i + 1)) == apply_op(apply_ops(s, ops.take(i)), ops[i]),
{
    assert(ops.take(i + 1).drop_last() =~= ops.take(i));
}

/// In a valid batch, the count of each node under each name after the first
/// `i` operations is its count before plus what those operations added.
proof fn lemma_valid_counts(s: MergerView, ops: Seq<OpView>, i: int, k: Seq<u8>, n: NodeId)
    requires
        batch_valid(s, ops),
        0 <= i <= ops.len(),
    ensures
        count_at(counter_at(apply_ops(s, ops.take(i)).counters, k), n) == count_at(
            counter_at(s.counters, k),
            n,
        ) + inc_total(ops.take(i), k, n),
    decreases i,
{
    if i == 0 {
        assert(ops.take(0) =~= Seq::<OpView>::empty());
    } else {
        lemma_valid_counts(s, ops, i - 1, k, n);
        lemma_apply_ops_step(s, ops, i - 1);
        lemma_inc_total_step(ops, i - 1, k, n);
        let prev = apply_ops(s, ops.take(i - 1));
        match ops[i - 1] {
            OpView::Inc(k2, n2, a) => {
                assert(op_valid(s, ops, i - 1));
                lemma_valid_counts(s, ops, i - 1, k2, n2);
                lemma_inc_total_nonneg(ops.take(i - 1), k2, n2);
            },
            _ => {},
        }
    }
}

impl BatchCrdtMerger {
    #[verifier::type_invariant]
    spec fn inv(&self) -> bool {
        &&& self.g_counters.wf()
        &&& self.or_sets.wf()
        &&& self.lww_registers.wf()
    }

    /// The largest batch the merger accepts.
    pub closed spec fn max_batch(&self) -> usize {
        self.max_batch_size
    }

    /// A merger with no values, accepting batches of up to
    /// [`MAX_CRDT_BATCH_SIZE`] operations.
    pub fn new() -> (r: Self)
        ensures
            r@.counters == Map::<Seq<u8>, Map<NodeId, u64>>::empty(),
            r@.sets == Map::<Seq<u8>, OrSetView>::empty(),
            r@.registers == Map::<Seq<u8>, LwwView>::empty(),
            r.max_batch() == MAX_CRDT_BATCH_SIZE,
    {
        Self::with_max_batch_size(MAX_CRDT_BATCH_SIZE)
    }

    /// A merger with no values, accepting batches of up to `max_batch_size`
    /// operations.
    pub fn with_max_batch_size(max_batch_size: usize) -> (r: Self)
        ensures
            r@.counters == Map::<Seq<u8>, Map<NodeId, u64>>::empty(),
            r@.sets == Map::<Seq<u8>, OrSetView>::empty(),
            r@.registers == Map::<Seq<u8>, LwwView>::empty(),
            r.max_batch() == max_batch_size,
    {
        let r = BatchCrdtMerger {
            g_counters: BytesMap::new(),
            or_sets: BytesMap::new(),
            lww_registers: BytesMap::new(),
            max_batch_size,
        };
        proof {
            assert(r@.counters =~= Map::<Seq<u8>, Map<NodeId, u64>>::empty());
            assert(r@.sets =~= Map::<Seq<u8>, OrSetView>::empty());
            assert(r@.registers =~= Map::<Seq<u8>, LwwView>::empty());
        }
        r
    }

    /// The total of the counter named `key` (zero when there is none),
    /// saturated at `u64::MAX`.
    pub fn g_counter_value(&self, key: &str) -> (r: u64)
        ensures
            r == saturated_total(counter_at(self@.counters, key_of(key@))),
    {
        proof {
            use_type_invariant(self);
        }
        let kb = key_bytes(key);
        match self.g_counters.get(kb.as_slice()) {
            Some(c) => c.value(),
            None => {
                proof {
                    assert(Map::<NodeId, u64>::empty().dom() =~= Set::<NodeId>::empty());
                    assert(crate::map_total::map_total(Map::<NodeId, u64>::empty()) == 0);
                }
                0
            },
        }
    }

    /// Whether the set named `key` holds `element` (false when there is no
    /// such set).
    pub fn or_set_contains(&self, key: &str, element: &[u8]) -> (r: bool)
        ensures
            r == orset_contains(set_at(self@.sets, key_of(key@)), element@),
    {
        proof {
            use_type_invariant(self);
        }
        let kb = key_bytes(key);
        match self.or_sets.get(kb.as_slice()) {
            Some(s) => s.contains(element),
            None => false,
        }
    }

    /// The value of the register named `key`, if it exists and was written.
    pub fn lww_register_value(&self, key: &str) -> (r: Option<&Vec<u8>>)
        ensures
            r.is_some() == (self@.registers.contains_key(key_of(key@))
                && self@.registers[key_of(key@)].value.is_some()),
            r matches Some(v) ==> self@.registers[key_of(key@)].value == Some(v@),
    {
        proof {
            use_type_invariant(self);
        }
        let kb = key_bytes(key);
        match self.lww_registers.get(kb.as_slice()) {
            Some(reg) => reg.get(),
            None => None,
        }
    }

    /// Number of counters.
    pub fn g_counter_count(&self) -> (r: usize)
        ensures
            r == self@.counters.len(),
    {
        proof {
            use_type_invariant(self);
            assert(self@.counters.dom() =~= self.g_counters@.dom());
        }
        self.g_counters.len()
    }

    /// Number of sets.
    pub fn or_set_count(&self) -> (r: usize)
        ensures
            r == self@.sets.len(),
    {
        proof {
            use_type_invariant(self);
            assert(self@.sets.dom() =~= self.or_sets@.dom());
        }
        self.or_sets.len()
    }

    /// Number of registers.
    pub fn lww_register_count(&self) -> (r: usize)
        ensures
            r == self@.registers.len(),
    {
        proof {
            use_type_invariant(self);
            assert(self@.registers.dom() =~= self.lww_registers@.dom());
        }
        self.lww_registers.len()
    }

    /// Check a batch without applying it: every increment must keep its
    /// node's count, together with the batch's earlier increments of the same
    /// node under the same name, within `u64::MAX`.
    fn validate_batch(&self, ops: &[CrdtBatchOp]) -> (r: Result<(), BatchCrdtError>)
        ensures
            r is Ok <==> batch_valid(self@, ops_view(ops@)),
            r matches Err(e) ==> e is ValidationFailed,
    {
        proof {
            use_type_invariant(self);
        }
        let ghost ov = ops_view(ops@);
        let mut i: usize = 0;
        while i < ops.len()
            invariant
                i <= ops@.len(),
                ov == ops_view(ops@),
                ov.len() == ops@.len(),
                forall|j: int| 0 <= j < i ==> #[trigger] op_valid(self@, ov, j),
            decreases ops@.len() - i,
        {
            assert(ov[i as int] == ops@[i as int]@);
            match &ops[i] {
                CrdtBatchOp::GCounterIncrement { key, node_id, amount } => {
                    let current = self.g_counter_node_value(key.as_str(), node_id);
                    let pending = Self::pending_increments(ops, i, key.as_str(), node_id);
                    let ok = match pending {
                        Some(p) => match current.checked_add(p) {
                            Some(cp) => cp.checked_add(*amount).is_some(),
                            None => false,
                        },
                        None => false,
                    };
                    if !ok {
                        proof {
                            lemma_inc_total_nonneg(ov.take(i as int), key_of(key@), *node_id);
                            assert(!op_valid(self@, ov, i as int));
                        }
                        return Err(
                            BatchCrdtError::ValidationFailed(
                                "G-Counter overflow: increment exceeds u64::MAX".to_owned(),
                            ),
                        );
                    }
                },
                _ => {},
            }
            assert(op_valid(self@, ov, i as int));
            i = i + 1;
        }
        Ok(())
    }

    /// The count of `node` in the counter named `key`.
    fn g_counter_node_value(&self, key: &str, node: &NodeId) -> (r: u64)
        ensures
            r == count_at(counter_at(self@.counters, key_of(key@)), *node),
    {
        proof {
            use_type_invariant(self);
        }
        let kb = key_bytes(key);
        match self.g_counters.get(kb.as_slice()) {
            Some(c) => c.node_value(node),
            None => 0,
        }
    }

    /// What the first `i` operations add to the count of `node` under `key`,
    /// or `None` when that exceeds `u64::MAX`.
    fn pending_increments(ops: &[CrdtBatchOp], i: usize, key: &str, node: &NodeId) -> (r: Option<u64>)
        requires
            i <= ops@.len(),
        ensures
            inc_total(ops_view(ops@).take(i as int), key_of(key@), *node) <= u64::MAX ==> r == Some(
                inc_total(ops_view(ops@).take(i as int), key_of(key@), *node) as u64,
            ),
            inc_total(ops_view(ops@).take(i as int), key_of(key@), *node) > u64::MAX ==> r is None,
    {
        let ghost ov = ops_view(ops@);
        let ghost k = key_of(key@);
        let mut acc: u64 = 0;
        let mut j: usize = 0;
        proof {
            assert(ov.take(0) =~= Seq::<OpView>::empty());
        }
        while j < i
            invariant
                j <= i <= ops@.len(),
                ov == ops_view(ops@),
                ov.len() == ops@.len(),
                k == key_of(key@),
                acc == inc_total(ov.take(j as int), k, *node),
            decreases i - j,
        {
            proof {
                lemma_inc_total_step(ov, j as int, k, *node);
                assert(ov[j as int] == ops@[j as int]@);
            }
            match &ops[j] {
                CrdtBatchOp::GCounterIncrement { key: k2, node_id, amount } => {
                    let kb2 = k2.as_str().as_bytes();
                    let kb = key.as_bytes();
                    assert(kb2@ == key_of(k2@));
                    assert(kb@ == k);
                    assert(ov[j as int] == OpView::Inc(key_of(k2@), *node_id, *amount));
                    if bytes_eq(kb2, kb) && id_eq(node_id, node) {
                        match acc.checked_add(*amount) {
                            Some(v) => {
                                acc = v;
                            },
                            None => {
                                proof {
                                    Self::lemma_inc_total_prefix_le(ov, j as int + 1, i as int, k, *node);
                                }
                                return None;
                            },
                        }
                    }
                },
                _ => {},
            }
            j = j + 1;
        }
        Some(acc)
    }

    proof fn lemma_inc_total_prefix_le(ops: Seq<OpView>, a: int, b: int, k: Seq<u8>, n: NodeId)
        requires
            0 <= a <= b <= ops.len(),
        ensures
            inc_total(ops.take(a), k, n) <= inc_total(ops.take(b), k, n),
        decreases b - a,
    {
        if a < b {
            Self::lemma_inc_total_prefix_le(ops, a, b - 1, k, n);
            lemma_inc_total_step(ops, b - 1, k, n);
        }
    }

    /// Apply a batch atomically.
    ///
    /// Rejects an empty batch, a batch larger than the merger accepts, and a
    /// batch that fails validation, each time leaving the merger unchanged.
    /// Otherwise applies every operation in order and reports how many it
    /// applied and how many distinct names they touched.
    pub fn apply_batch(&mut self, ops: &[CrdtBatchOp]) -> (r: Result<BatchMergeResult, BatchCrdtError>)
        ensures
            final(self).max_batch() == old(self).max_batch(),
            ops@.len() == 0 ==> r == Err::<BatchMergeResult, BatchCrdtError>(BatchCrdtError::EmptyBatch),
            ops@.len() > old(self).max_batch() ==> r == Err::<BatchMergeResult, BatchCrdtError>(
                BatchCrdtError::BatchTooLarge(ops@.len() as usize, old(self).max_batch()),
            ),
            0 < ops@.len() <= old(self).max_batch() && !batch_valid(old(self)@, ops_view(ops@))
                ==> (r matches Err(e) && e is ValidationFailed),
            0 < ops@.len() <= old(self).max_batch() && batch_valid(old(self)@, ops_view(ops@))
                ==> r == Ok::<BatchMergeResult, BatchCrdtError>(
                BatchMergeResult {
                    applied_count: ops@.len() as usize,
                    modified_count: batch_keys(ops_view(ops@)).len() as usize,
                    atomic: true,
                },
            ),
            r is Ok ==> final(self)@ == apply_ops(old(self)@, ops_view(ops@)),
            r is Err ==> final(self)@ == old(self)@,
    {
        if ops.len() == 0 {
            return Err(BatchCrdtError::EmptyBatch);
        }
        if ops.len() > self.max_batch_size {
            return Err(BatchCrdtError::BatchTooLarge(ops.len(), self.max_batch_size));
        }
        match self.validate_batch(ops) {
            Ok(()) => {},
            Err(e) => {
                return Err(e);
            },
        }
        proof {
            use_type_invariant(&*self);
        }
        let ghost s0 = self@;
        let ghost ov = ops_view(ops@);
        let mut gc: BytesMap<GCounter> = BytesMap::new();
        let mut os: BytesMap<OrSet> = BytesMap::new();
        let mut lw: BytesMap<LwwRegister> = BytesMap::new();
        std::mem::swap(&mut gc, &mut self.g_counters);
        std::mem::swap(&mut os, &mut self.or_sets);
        std::mem::swap(&mut lw, &mut self.lww_registers);
        let mut seen: Vec<Vec<u8>> = Vec::new();
        let mut i: usize = 0;
        proof {
            assert(ov.take(0) =~= Seq::<OpView>::empty());
            assert(seen@.map_values(|v: Vec<u8>| v@) =~= Seq::<Seq<u8>>::empty());
            assert(ov.take(0).map_values(|o: OpView| op_key(o)) =~= Seq::<Seq<u8>>::empty());
        }
        while i < ops.len()
            invariant
                i <= ops@.len(),
                ov == ops_view(ops@),
                ov.len() == ops@.len(),
                batch_valid(s0, ov),
                gc.wf(),
                os.wf(),
                lw.wf(),
                maps_view(gc@, os@, lw@) == apply_ops(s0, ov.take(i as int)),
                seen@.map_values(|v: Vec<u8>| v@).no_duplicates(),
                seen@.map_values(|v: Vec<u8>| v@).to_set() == batch_keys(ov.take(i as int)),
                seen@.len() <= i,
            decreases ops@.len() - i,
        {
            let ghost cur = maps_view(gc@, os@, lw@);
            proof {
                lemma_apply_ops_step(s0, ov, i as int);
                assert(ov[i as int] == ops@[i as int]@);
            }
            Self::apply_one(&mut gc, &mut os, &mut lw, &ops[i], Ghost(s0), Ghost(ov), Ghost(i as int));
            let name = op_name(&ops[i]);
            Self::note_key(&mut seen, name.as_str().as_bytes(), Ghost(ov), Ghost(i as int));
            i = i + 1;
        }
        proof {
            assert(ov.take(ops@.len() as int) =~= ov);
            seen@.map_values(|v: Vec<u8>| v@).unique_seq_to_set();
        }
        self.g_counters = gc;
        self.or_sets = os;
        self.lww_registers = lw;
        Ok(BatchMergeResult { applied_count: ops.len(), modified_count: seen.len(), atomic: true })
    }

    /// Record the name of operation `i` among the names seen so far.
    fn note_key(seen: &mut Vec<Vec<u8>>, key: &[u8], Ghost(ov): Ghost<Seq<OpView>>, Ghost(i): Ghost<int>)
        requires
            0 <= i < ov.len(),
            key@ == op_key(ov[i]),
            old(seen)@.map_values(|v: Vec<u8>| v@).no_duplicates(),
            old(seen)@.map_values(|v: Vec<u8>| v@).to_set() == batch_keys(ov.take(i)),
            old(seen)@.len() <= i,
        ensures
            final(seen)@.map_values(|v: Vec<u8>| v@).no_duplicates(),
            final(seen)@.map_values(|v: Vec<u8>| v@).to_set() == batch_keys(ov.take(i + 1)),
            final(seen)@.len() <= i + 1,
    {
        let ghost before = seen@.map_values(|v: Vec<u8>| v@);
        let mut present = false;
        let mut j: usize = 0;
        while j < seen.len()
            invariant
                j <= seen@.len(),
                before == seen@.map_values(|v: Vec<u8>| v@),
                present == exists|q: int| 0 <= q < j && #[trigger] before[q] == key@,
            decreases seen@.len() - j,
        {
            if bytes_eq(seen[j].as_slice(), key) {
                assert(before[j as int] == key@);
                present = true;
            }
            j = j + 1;
        }
        let ghost ks = ov.take(i).map_values(|o: OpView| op_key(o));
        proof {
            assert(ov.take(i + 1).map_values(|o: OpView| op_key(o)) =~= ks.push(key@));
            ks.lemma_push_to_set_commute(key@);
        }
        if !present {
            seen.push(bytes_copy(key));
            proof {
                assert(seen@.map_values(|v: Vec<u8>| v@) =~= before.push(key@));
                before.lemma_push_to_set_commute(key@);
                assert forall|a: int, b: int| 0 <= a < b < before.len() + 1 implies #[trigger] before.push(key@)[a] != #[trigger] before.push(key@)[b] by {
                    if b == before.len() {
                        assert(before[a] != key@);
                    }
                }
            }
        } else {
            proof {
                let q = choose|q: int| 0 <= q < j && #[trigger] before[q] == key@;
                assert(before.to_set().contains(key@));
                assert(before.to_set().insert(key@) =~= before.to_set());
            }
        }
    }

    /// Apply operation `i` of a valid batch to the maps.
    fn apply_one(
        gc: &mut BytesMap<GCounter>,
        os: &mut BytesMap<OrSet>,
        lw: &mut BytesMap<LwwRegister>,
        op: &CrdtBatchOp,
        Ghost(s0): Ghost<MergerView>,
        Ghost(ov): Ghost<Seq<OpView>>,
        Ghost(i): Ghost<int>,
    )
        requires
            0 <= i < ov.len(),
            ov[i] == op@,
            batch_valid(s0, ov),
            old(gc).wf(),
            old(os).wf(),
            old(lw).wf(),
            maps_view(old(gc)@, old(os)@, old(lw)@) == apply_ops(s0, ov.take(i)),
        ensures
            final(gc).wf(),
            final(os).wf(),
            final(lw).wf(),
            maps_view(final(gc)@, final(os)@, final(lw)@) == apply_op(
                maps_view(old(gc)@, old(os)@, old(lw)@),
                op@,
            ),
    {
        let ghost cur = maps_view(gc@, os@, lw@);
        match op {
            CrdtBatchOp::GCounterIncrement { key, node_id, amount } => {
                let kb = key_bytes(key.as_str());
                let mut c = match gc.remove(kb.as_slice()) {
                    Some(c) => c,
                    None => GCounter::new(),
                };
                assert(c@ == counter_at(cur.counters, kb@));
                proof {
                    assert(op_valid(s0, ov, i));
                    lemma_valid_counts(s0, ov, i, kb@, *node_id);
                }
                let res = c.increment(*node_id, *amount);
                assert(res is Ok);
                gc.insert(kb, c);
                proof {
                    assert(maps_view(gc@, os@, lw@).counters =~= apply_op(cur, op@).counters);
                }
            },
            CrdtBatchOp::OrSetAdd { key, node_id, element } => {
                let kb = key_bytes(key.as_str());
                let mut s = match os.remove(kb.as_slice()) {
                    Some(s) => s,
                    None => OrSet::new(),
                };
                assert(s@ == set_at(cur.sets, kb@));
                s.add(*node_id, bytes_copy(element.as_slice()));
                os.insert(kb, s);
                proof {
                    assert(maps_view(gc@, os@, lw@).sets =~= apply_op(cur, op@).sets);
                }
            },
            CrdtBatchOp::OrSetRemove { key, element } => {
                let kb = key_bytes(key.as_str());
                let mut s = match os.remove(kb.as_slice()) {
                    Some(s) => s,
                    None => OrSet::new(),
                };
                assert(s@ == set_at(cur.sets, kb@));
                s.remove(element.as_slice());
                os.insert(kb, s);
                proof {
                    assert(maps_view(gc@, os@, lw@).sets =~= apply_op(cur, op@).sets);
                }
            },
            CrdtBatchOp::LwwRegisterUpdate { key, node_id, value, timestamp, version } => {
                let kb = key_bytes(key.as_str());
                let mut reg = match lw.remove(kb.as_slice()) {
                    Some(reg) => reg,
                    None => LwwRegister::new(*node_id),
                };
                reg.set_with_meta(bytes_copy(value.as_slice()), *timestamp, *node_id, *version);
                lw.insert(kb, reg);
                proof {
                    assert(maps_view(gc@, os@, lw@).registers =~= apply_op(cur, op@).registers);
                }
            },
        }
        proof {
            let nv = maps_view(gc@, os@, lw@);
            let want = apply_op(cur, op@);
            assert(nv.counters =~= want.counters);
            assert(nv.sets =~= want.sets);
            assert(nv.registers =~= want.registers);
        }
    }

    /// Merge another merger into this one, name by name: counters take the
    /// larger count per node, sets merge their adds and tombstones, and
    /// registers keep the later-stamped write.
    pub fn merge(&mut self, other: &Self)
        ensures
            final(self)@ == merger_merge(old(self)@, other@),
            final(self).max_batch() == old(self).max_batch(),
    {
        proof {
            use_type_invariant(&*self);
            use_type_invariant(other);
        }
        let ghost a = self@;
        let mut gc: BytesMap<GCounter> = BytesMap::new();
        let mut os: BytesMap<OrSet> = BytesMap::new();
        let mut lw: BytesMap<LwwRegister> = BytesMap::new();
        std::mem::swap(&mut gc, &mut self.g_counters);
        std::mem::swap(&mut os, &mut self.or_sets);
        std::mem::swap(&mut lw, &mut self.lww_registers);
        Self::merge_counters(&mut gc, &other.g_counters);
        Self::merge_sets(&mut os, &other.or_sets);
        Self::merge_registers(&mut lw, &other.lww_registers);
        proof {
            let nv = maps_view(gc@, os@, lw@);
            let want = merger_merge(a, other@);
            assert(nv.counters =~= want.counters);
            assert(nv.sets =~= want.sets);
            assert(nv.registers =~= want.registers);
        }
        self.g_counters = gc;
        self.or_sets = os;
        self.lww_registers = lw;
    }

    fn merge_counters(mine: &mut BytesMap<GCounter>, theirs: &BytesMap<GCounter>)
        requires
            old(mine).wf(),
            theirs.wf(),
        ensures
            final(mine).wf(),
            final(mine)@.map_values(|c: GCounter| c@) == merger_merge(
                maps_view(old(mine)@, Map::empty(), Map::empty()),
                maps_view(theirs@, Map::empty(), Map::empty()),
            ).counters,
    {
        let ghost a = old(mine)@.map_values(|c: GCounter| c@);
        let ghost b = theirs@.map_values(|c: GCounter| c@);
        proof {
            theirs.lemma_entries();
        }
        let n = theirs.len();
        let mut i: usize = 0;
        while i < n
            invariant
                n == theirs.entry_seq().len(),
                theirs.wf(),
                i <= n,
                mine.wf(),
                a == old(mine)@.map_values(|c: GCounter| c@),
                b == theirs@.map_values(|c: GCounter| c@),
                forall|k: Seq<u8>| #[trigger] mine@.contains_key(k) <==> (a.contains_key(k) || exists|j: int|
                    0 <= j < i && theirs.entry_seq()[j].0@ == k),
                forall|k: Seq<u8>| #[trigger] mine@.contains_key(k) ==> mine@[k]@ == if exists|j: int|
                    0 <= j < i && theirs.entry_seq()[j].0@ == k {
                    max_merge(counter_at(a, k), b[k])
                } else {
                    a[k]
                },
            decreases n - i,
        {
            proof {
                theirs.lemma_entries();
            }
            let key = theirs.key_at(i);
            let other_c = theirs.value_at(i);
            let ghost k = key@;
            proof {
                assert(theirs@.contains_key(k));
                assert(b[k] == other_c@);
            }
            let mut c = match mine.remove(key.as_slice()) {
                Some(c) => c,
                None => GCounter::new(),
            };
            proof {
                if !a.contains_key(k) && !(exists|j: int| 0 <= j < i && theirs.entry_seq()[j].0@ == k) {
                    assert(c@ == Map::<NodeId, u64>::empty());
                }
                assert forall|j: int| 0 <= j < i implies theirs.entry_seq()[j].0@ != k by {
                    assert(theirs.entry_seq()[j].0@ != theirs.entry_seq()[i as int].0@);
                }
                assert(c@ == counter_at(a, k));
            }
            c.merge(other_c);
            mine.insert(bytes_copy(key.as_slice()), c);
            proof {
                assert forall|kk: Seq<u8>| #[trigger] mine@.contains_key(kk) <==> (a.contains_key(kk) || exists|j: int|
                    0 <= j < i + 1 && theirs.entry_seq()[j].0@ == kk) by {
                    if kk == k {
                        assert(theirs.entry_seq()[i as int].0@ == kk);
                    } else if exists|j: int| 0 <= j < i + 1 && theirs.entry_seq()[j].0@ == kk {
                        let j = choose|j: int| 0 <= j < i + 1 && theirs.entry_seq()[j].0@ == kk;
                        assert(j != i);
                    }
                }
                assert forall|kk: Seq<u8>| #[trigger] mine@.contains_key(kk) implies mine@[kk]@ == if exists|j: int|
                    0 <= j < i + 1 && theirs.entry_seq()[j].0@ == kk {
                    max_merge(counter_at(a, kk), b[kk])
                } else {
                    a[kk]
                } by {
                    if kk == k {
                        assert(theirs.entry_seq()[i as int].0@ == kk);
                    } else if exists|j: int| 0 <= j < i + 1 && theirs.entry_seq()[j].0@ == kk {
                        let j = choose|j: int| 0 <= j < i + 1 && theirs.entry_seq()[j].0@ == kk;
                        assert(j != i);
                        assert(exists|j2: int| 0 <= j2 < i && theirs.entry_seq()[j2].0@ == kk);
                    }
                }
            }
            i = i + 1;
        }
        proof {
            let want = merger_merge(
                maps_view(old(mine)@, Map::empty(), Map::empty()),
                maps_view(theirs@, Map::empty(), Map::empty()),
            ).counters;
            assert forall|k: Seq<u8>| b.contains_key(k) <==> exists|j: int|
                0 <= j < n && theirs.entry_seq()[j].0@ == k by {
                if b.contains_key(k) {
                    assert(theirs@.contains_key(k));
                }
            }
            assert(mine@.map_values(|c: GCounter| c@) =~= want);
        }
    }

    fn merge_sets(mine: &mut BytesMap<OrSet>, theirs: &BytesMap<OrSet>)
        requires
            old(mine).wf(),
            theirs.wf(),
        ensures
            final(mine).wf(),
            final(mine)@.map_values(|s: OrSet| s@) == merger_merge(
                maps_view(Map::empty(), old(mine)@, Map::empty()),
                maps_view(Map::empty(), theirs@, Map::empty()),
            ).sets,
    {
        let ghost a = old(mine)@.map_values(|s: OrSet| s@);
        let ghost b = theirs@.map_values(|s: OrSet| s@);
        proof {
            theirs.lemma_entries();
        }
        let n = theirs.len();
        let mut i: usize = 0;
        while i < n
            invariant
                n == theirs.entry_seq().len(),
                theirs.wf(),
                i <= n,
                mine.wf(),
                a == old(mine)@.map_values(|s: OrSet| s@),
                b == theirs@.map_values(|s: OrSet| s@),
                forall|k: Seq<u8>| #[trigger] mine@.contains_key(k) <==> (a.contains_key(k) || exists|j: int|
                    0 <= j < i && theirs.entry_seq()[j].0@ == k),
                forall|k: Seq<u8>| #[trigger] mine@.contains_key(k) ==> mine@[k]@ == if exists|j: int|
                    0 <= j < i && theirs.entry_seq()[j].0@ == k {
                    orset_merge(set_at(a, k), b[k])
                } else {
                    a[k]
                },
            decreases n - i,
        {
            proof {
                theirs.lemma_entries();
            }
            let key = theirs.key_at(i);
            let other_s = theirs.value_at(i);
            let ghost k = key@;
            proof {
                assert(theirs@.contains_key(k));
                assert(b[k] == other_s@);
            }
            let mut s = match mine.remove(key.as_slice()) {
                Some(s) => s,
                None => OrSet::new(),
            };
            proof {
                if !a.contains_key(k) && !(exists|j: int| 0 <= j < i && theirs.entry_seq()[j].0@ == k) {
                    assert(s@ == empty_orset());
                }
                assert forall|j: int| 0 <= j < i implies theirs.entry_seq()[j].0@ != k by {
                    assert(theirs.entry_seq()[j].0@ != theirs.entry_seq()[i as int].0@);
                }
                assert(s@ == set_at(a, k));
            }
            s.merge(other_s);
            mine.insert(bytes_copy(key.as_slice()), s);
            proof {
                assert forall|kk: Seq<u8>| #[trigger] mine@.contains_key(kk) <==> (a.contains_key(kk) || exists|j: int|
                    0 <= j < i + 1 && theirs.entry_seq()[j].0@ == kk) by {
                    if kk == k {
                        assert(theirs.entry_seq()[i as int].0@ == kk);
                    } else if exists|j: int| 0 <= j < i + 1 && theirs.entry_seq()[j].0@ == kk {
                        let j = choose|j: int| 0 <= j < i + 1 && theirs.entry_seq()[j].0@ == kk;
                        assert(j != i);
                    }
                }
                assert forall|kk: Seq<u8>| #[trigger] mine@.contains_key(kk) implies mine@[kk]@ == if exists|j: int|
                    0 <= j < i + 1 && theirs.entry_seq()[j].0@ == kk {
                    orset_merge(set_at(a, kk), b[kk])
                } else {
                    a[kk]
                } by {
                    if kk == k {
                        assert(theirs.entry_seq()[i as int].0@ == kk);
                    } else if exists|j: int| 0 <= j < i + 1 && theirs.entry_seq()[j].0@ == kk {
                        let j = choose|j: int| 0 <= j < i + 1 && theirs.entry_seq()[j].0@ == kk;
                        assert(j != i);
                        assert(exists|j2: int| 0 <= j2 < i && theirs.entry_seq()[j2].0@ == kk);
                    }
                }
            }
            i = i + 1;
        }
        proof {
            let want = merger_merge(
                maps_view(Map::empty(), old(mine)@, Map::empty()),
                maps_view(Map::empty(), theirs@, Map::empty()),
            ).sets;
            assert forall|k: Seq<u8>| b.contains_key(k) <==> exists|j: int|
                0 <= j < n && theirs.entry_seq()[j].0@ == k by {
                if b.contains_key(k) {
                    assert(theirs@.contains_key(k));
                }
            }
            assert(mine@.map_values(|s: OrSet| s@) =~= want);
        }
    }

    fn merge_registers(mine: &mut BytesMap<LwwRegister>, theirs: &BytesMap<LwwRegister>)
        requires
            old(mine).wf(),
            theirs.wf(),
        ensures
            final(mine).wf(),
            final(mine)@.map_values(|r: LwwRegister| r@) == merger_merge(
                maps_view(Map::empty(), Map::empty(), old(mine)@),
                maps_view(Map::empty(), Map::empty(), theirs@),
            ).registers,
    {
        let ghost a = old(mine)@.map_values(|r: LwwRegister| r@);
        let ghost b = theirs@.map_values(|r: LwwRegister| r@);
        proof {
            theirs.lemma_entries();
        }
        let n = theirs.len();
        let mut i: usize = 0;
        while i < n
            invariant
                n == theirs.entry_seq().len(),
                theirs.wf(),
                i <= n,
                mine.wf(),
                a == old(mine)@.map_values(|r: LwwRegister| r@),
                b == theirs@.map_values(|r: LwwRegister| r@),
                forall|k: Seq<u8>| #[trigger] mine@.contains_key(k) <==> (a.contains_key(k) || exists|j: int|
                    0 <= j < i && theirs.entry_seq()[j].0@ == k),
                forall|k: Seq<u8>| #[trigger] mine@.contains_key(k) ==> mine@[k]@ == if exists|j: int|
                    0 <= j < i && theirs.entry_seq()[j].0@ == k {
                    lww_merge(
                        if a.contains_key(k) {
                            a[k]
                        } else {
                            fresh_register(b[k].writer)
                        },
                        b[k],
                    )
                } else {
                    a[k]
                },
            decreases n - i,
        {
            proof {
                theirs.lemma_entries();
            }
            let key = theirs.key_at(i);
            let other_r = theirs.value_at(i);
            let ghost k = key@;
            proof {
                assert forall|j: int| 0 <= j < i implies theirs.entry_seq()[j].0@ != k by {
                    assert(theirs.entry_seq()[j].0@ != theirs.entry_seq()[i as int].0@);
                }
                assert(b[k] == other_r@);
            }
            let mut reg = match mine.remove(key.as_slice()) {
                Some(reg) => reg,
                None => LwwRegister::new(other_r.writer()),
            };
            proof {
                assert(reg@ == if a.contains_key(k) {
                    a[k]
                } else {
                    fresh_register(b[k].writer)
                });
            }
            reg.merge(other_r);
            mine.insert(bytes_copy(key.as_slice()), reg);
            proof {
                assert forall|kk: Seq<u8>| #[trigger] mine@.contains_key(kk) <==> (a.contains_key(kk) || exists|j: int|
                    0 <= j < i + 1 && theirs.entry_seq()[j].0@ == kk) by {
                    if kk == k {
                        assert(theirs.entry_seq()[i as int].0@ == kk);
                    } else if exists|j: int| 0 <= j < i + 1 && theirs.entry_seq()[j].0@ == kk {
                        let j = choose|j: int| 0 <= j < i + 1 && theirs.entry_seq()[j].0@ == kk;
                        assert(j != i);
                    }
                }
                assert forall|kk: Seq<u8>| #[trigger] mine@.contains_key(kk) implies mine@[kk]@ == if exists|j: int|
                    0 <= j < i + 1 && theirs.entry_seq()[j].0@ == kk {
                    lww_merge(
                        if a.contains_key(kk) {
                            a[kk]
                        } else {
                            fresh_register(b[kk].writer)
                        },
                        b[kk],
                    )
                } else {
                    a[kk]
                } by {
                    if kk == k {
                        assert(theirs.entry_seq()[i as int].0@ == kk);
                    } else if exists|j: int| 0 <= j < i + 1 && theirs.entry_seq()[j].0@ == kk {
                        let j = choose|j: int| 0 <= j < i + 1 && theirs.entry_seq()[j].0@ == kk;
                        assert(j != i);
                        assert(exists|j2: int| 0 <= j2 < i && theirs.entry_seq()[j2].0@ == kk);
                    }
                }
            }
            i = i + 1;
        }
        proof {
            let want = merger_merge(
                maps_view(Map::empty(), Map::empty(), old(mine)@),
                maps_view(Map::empty(), Map::empty(), theirs@),
            ).registers;
            assert forall|k: Seq<u8>| b.contains_key(k) <==> exists|j: int|
                0 <= j < n && theirs.entry_seq()[j].0@ == k by {
                if b.contains_key(k) {
                    assert(theirs@.contains_key(k));
                }
            }
            assert(mine@.map_values(|r: LwwRegister| r@) =~= want);
        }
    }
}

impl Default for BatchCrdtMerger {
    fn default() -> (r: Self)
        ensures
            r@.counters == Map::<Seq<u8>, Map<NodeId, u64>>::empty(),
            r@.sets == Map::<Seq<u8>, OrSetView>::empty(),
            r@.registers == Map::<Seq<u8>, LwwView>::empty(),
            r.max_batch() == MAX_CRDT_BATCH_SIZE,
    {
        Self::new()
    }
}

/// An increment that would push a node's count past `u64::MAX` makes the
/// batch invalid, whatever else it holds.
pub proof fn lemma_overflowing_increment_invalid(
    s: MergerView,
    ops: Seq<OpView>,
    i: int,
    k: Seq<u8>,
    n: NodeId,
    a: u64,
)
    requires
        0 <= i < ops.len(),
        ops[i] == OpView::Inc(k, n, a),
        count_at(counter_at(s.counters, k), n) + a > u64::MAX,
    ensures
        !batch_valid(s, ops),
{
    lemma_inc_total_nonneg(ops.take(i), k, n);
    assert(!op_valid(s, ops, i));
}

} // verus!
