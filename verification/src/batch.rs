//! Batches of events with a Merkle proof, and an ingestor that forms them.
//!
//! The proof of a batch is the root of a binary BLAKE3 Merkle tree over the
//! domain-separated hashes of the event ids, in ascending order, together
//! with the event count and a batch id that binds the two. An ingestor
//! buffers events and emits a batch when enough have arrived or on demand.
use vstd::prelude::*;
use vstd::string::StringSliceAdditionalSpecFns;
use crate::ids::EventId;
use crate::ids::NodeId;
use crate::ids::ids_sorted;
use crate::ids::sort_ids;
use crate::ids::sorted_multiset_listing;
use crate::ids::lemma_sorted_multiset_listing;
use crate::ids::le_bytes_u64;
use crate::ids::push_le_u64;
use crate::ids::id_eq;
use crate::event::Event;
use crate::event::EventView;
use crate::event::event_hash;
use crate::vector_clock::VectorClock;
use crate::vector_clock::max_merge;
use crate::crypto::domain_hash;
use crate::crypto::blake3_hash_domain;
use crate::crypto::append_bytes;
use crate::causal_graph::CausalGraph;

verus! {

/// Maximum number of events in a batch.
pub const MAX_BATCH_SIZE: usize = 100;

/// Number of buffered events at which an ingestor forms a batch, by default.
pub const DEFAULT_BATCH_SIZE: usize = 50;

/// Time after which buffered events are flushed, by default (milliseconds).
pub const DEFAULT_BATCH_TIMEOUT_MS: u64 = 100;

/// The domain tag of batch Merkle hashing.
pub open spec fn proof_domain() -> Seq<u8> {
    "omnia-batch-proof".spec_bytes()
}

/// The domain tag of batch ids.
pub open spec fn batch_id_domain() -> Seq<u8> {
    "omnia-batch-id".spec_bytes()
}

/// The proof of a batch.
#[derive(Debug, Clone, Copy, PartialEq, Eq)]
pub struct BatchProof {
    /// Merkle root over the event hashes.
    pub merkle_root: [u8; 32],
    /// Number of events.
    pub event_count: usize,
    /// Hash binding the root and the count.
    pub batch_id: [u8; 32],
}

/// Errors of batch operations.
#[derive(Debug, Clone)]
pub enum BatchError {
    /// The batch has no events.
    EmptyBatch,
    /// The batch has more events than allowed: (size, maximum).
    BatchTooLarge(usize, usize),
    /// The proof does not match the events.
    InvalidProof(String),
    /// The state root does not match.
    InvalidStateRoot {
        /// The expected root.
        expected: [u8; 32],
        /// The batch's root.
        actual: [u8; 32],
    },
    /// The batch is malformed.
    MalformedBatch(String),
    /// An event of the batch failed validation.
    EventValidationFailed(String),
    /// The batch was rejected.
    BatchRejected(String),
    /// An arithmetic overflow.
    Overflow(String),
}

/// The message of a batch error.
pub open spec fn batch_error_text(e: BatchError) -> Seq<char> {
    match e {
        BatchError::EmptyBatch => "Batch is empty"@,
        BatchError::BatchTooLarge(_, _) => "Batch size exceeds maximum"@,
        BatchError::InvalidProof(m) => m@,
        BatchError::InvalidStateRoot { .. } => "Invalid state root in batch"@,
        BatchError::MalformedBatch(m) => m@,
        BatchError::EventValidationFailed(m) => m@,
        BatchError::BatchRejected(m) => m@,
        BatchError::Overflow(m) => m@,
    }
}

impl BatchError {
    /// A human-readable description of the error.
    pub fn message(&self) -> (r: String)
        ensures
            r@ == batch_error_text(*self),
    {
        match self {
            BatchError::EmptyBatch => "Batch is empty".to_owned(),
            BatchError::BatchTooLarge(_, _) => "Batch size exceeds maximum".to_owned(),
            BatchError::InvalidProof(m) => m.clone(),
            BatchError::InvalidStateRoot { .. } => "Invalid state root in batch".to_owned(),
            BatchError::MalformedBatch(m) => m.clone(),
            BatchError::EventValidationFailed(m) => m.clone(),
            BatchError::BatchRejected(m) => m.clone(),
            BatchError::Overflow(m) => m.clone(),
        }
    }
}

/// Batch sizes and timing.
#[derive(Debug, Clone, Copy, PartialEq, Eq)]
pub struct BatchConfig {
    /// Maximum number of events per batch.
    pub max_batch_size: usize,
    /// Number of buffered events at which a batch is formed.
    pub flush_size: usize,
    /// Time after which buffered events are flushed (milliseconds).
    pub flush_timeout_ms: u64,
}

impl Default for BatchConfig {
    fn default() -> (r: Self)
        ensures
            r == (BatchConfig {
                max_batch_size: MAX_BATCH_SIZE,
                flush_size: DEFAULT_BATCH_SIZE,
                flush_timeout_ms: DEFAULT_BATCH_TIMEOUT_MS,
            }),
    {
        BatchConfig {
            max_batch_size: MAX_BATCH_SIZE,
            flush_size: DEFAULT_BATCH_SIZE,
            flush_timeout_ms: DEFAULT_BATCH_TIMEOUT_MS,
        }
    }
}

/// The leaf of an event id.
pub open spec fn batch_leaf(id: EventId) -> [u8; 32] {
    domain_hash(proof_domain(), id@)
}

/// An inner node.
pub open spec fn batch_node(l: [u8; 32], r: [u8; 32]) -> [u8; 32] {
    domain_hash(proof_domain(), l@ + r@)
}

/// The level above `level`: neighbours hashed in pairs, an odd last node
/// with itself.
pub open spec fn batch_next_level(level: Seq<[u8; 32]>) -> Seq<[u8; 32]> {
    Seq::new(
        ((level.len() + 1) / 2) as nat,
        |i: int|
            batch_node(
                level[2 * i],
                if 2 * i + 1 < level.len() {
                    level[2 * i + 1]
                } else {
                    level[2 * i]
                },
            ),
    )
}

/// The Merkle root of a non-empty level: the single node, or the root of
/// the level above.
pub open spec fn batch_root(level: Seq<[u8; 32]>) -> [u8; 32]
    decreases level.len(),
{
    if level.len() <= 1 {
        level[0]
    } else {
        batch_root(batch_next_level(level))
    }
}

/// The leaves of a batch: the leaf of each event id, in ascending order.
pub open spec fn batch_leaves(ids: Seq<EventId>) -> Seq<[u8; 32]> {
    sorted_multiset_listing(ids.map_values(|id: EventId| batch_leaf(id)).to_multiset())
}

/// The batch id of a root and a count.
pub open spec fn batch_id_of(root: [u8; 32], count: u64) -> [u8; 32] {
    domain_hash(batch_id_domain(), root@ + le_bytes_u64(count))
}

/// The ids of a list of events.
pub open spec fn event_ids(events: Seq<Event>) -> Seq<EventId> {
    events.map_values(|e: Event| e.id)
}

/// The proof of a batch of events with these ids.
pub open spec fn proof_of(ids: Seq<EventId>) -> BatchProof {
    let root = batch_root(batch_leaves(ids));
    BatchProof {
        merkle_root: root,
        event_count: ids.len() as usize,
        batch_id: batch_id_of(root, ids.len() as u64),
    }
}

/// The Merkle root of `leaves` (all zeros when there is none).
pub fn compute_merkle_root(leaves: &[[u8; 32]]) -> (r: [u8; 32])
    ensures
        leaves@.len() == 0 ==> r@ == Seq::new(32, |i: int| 0u8),
        leaves@.len() > 0 ==> r == batch_root(leaves@),
{
    if leaves.len() == 0 {
        let z = [0u8; 32];
        proof {
            broadcast use vstd::array::group_array_axioms;

            assert(z@ =~= Seq::new(32, |i: int| 0u8));
        }
        return z;
    }
    let mut level: Vec<[u8; 32]> = Vec::new();
    let mut i: usize = 0;
    while i < leaves.len()
        invariant
            i <= leaves@.len(),
            level@ == leaves@.take(i as int),
        decreases leaves@.len() - i,
    {
        level.push(leaves[i]);
        i = i + 1;
        proof {
            assert(level@ =~= leaves@.take(i as int));
        }
    }
    proof {
        assert(level@ =~= leaves@);
    }
    while level.len() > 1
        invariant
            level@.len() >= 1,
            batch_root(level@) == batch_root(leaves@),
        decreases level@.len(),
    {
        level = level_up(&level);
    }
    level[0]
}

/// The level above `level`.
fn level_up(level: &Vec<[u8; 32]>) -> (r: Vec<[u8; 32]>)
    requires
        level@.len() > 1,
    ensures
        r@ == batch_next_level(level@),
        r@.len() < level@.len(),
        r@.len() >= 1,
{
    let n = level.len();
    let half = n / 2 + n % 2;
    let mut r: Vec<[u8; 32]> = Vec::new();
    let mut k: usize = 0;
    while k < half
        invariant
            n == level@.len(),
            n > 1,
            half == n / 2 + n % 2,
            k <= half,
            r@.len() == k,
            forall|j: int| 0 <= j < r@.len() ==> #[trigger] r@[j] == batch_next_level(level@)[j],
        decreases half - k,
    {
        let i = 2 * k;
        let left = level[i];
        let right = if i + 1 < n {
            level[i + 1]
        } else {
            level[i]
        };
        let mut data: Vec<u8> = Vec::new();
        append_bytes(&mut data, &left);
        append_bytes(&mut data, &right);
        let h = blake3_hash_domain("omnia-batch-proof".as_bytes(), data.as_slice());
        proof {
            assert(batch_next_level(level@)[k as int] == h);
        }
        r.push(h);
        k = k + 1;
    }
    proof {
        assert(r@ =~= batch_next_level(level@));
    }
    r
}

/// The sorted leaves of a list of events.
fn leaves_of(events: &[Event]) -> (r: Vec<[u8; 32]>)
    ensures
        r@ == batch_leaves(event_ids(events@)),
        r@.len() == events@.len(),
{
    let mut raw: Vec<[u8; 32]> = Vec::new();
    let mut i: usize = 0;
    let ghost ids = event_ids(events@);
    while i < events.len()
        invariant
            i <= events@.len(),
            ids == event_ids(events@),
            raw@ == ids.take(i as int).map_values(|id: EventId| batch_leaf(id)),
        decreases events@.len() - i,
    {
        let h = blake3_hash_domain("omnia-batch-proof".as_bytes(), &events[i].id);
        raw.push(h);
        i = i + 1;
        proof {
            assert(raw@ =~= ids.take(i as int).map_values(|id: EventId| batch_leaf(id)));
        }
    }
    proof {
        assert(ids.take(events@.len() as int) =~= ids);
    }
    let sorted = sort_ids(&raw);
    proof {
        lemma_sorted_multiset_listing(sorted@, raw@.to_multiset());
    }
    sorted
}

/// The batch id of `root` and `count`.
fn compute_batch_id(root: &[u8; 32], count: u64) -> (r: [u8; 32])
    ensures
        r == batch_id_of(*root, count),
{
    let mut input: Vec<u8> = Vec::new();
    append_bytes(&mut input, root);
    push_le_u64(&mut input, count);
    blake3_hash_domain("omnia-batch-id".as_bytes(), input.as_slice())
}

/// The message of an event that fails its hash check: the first bytes of
/// its id, listed as `format!` writes a byte slice with `{:?}`.
#[verifier::external_body]
fn hash_failure_message(id_prefix: &[u8]) -> String {
    format!("invalid hash for event {:?}", id_prefix)
}

impl BatchProof {
    /// The proof of a non-empty list of events; `EmptyBatch` for none.
    pub fn compute(events: &[Event]) -> (r: Result<BatchProof, BatchError>)
        ensures
            events@.len() == 0 ==> r matches Err(BatchError::EmptyBatch),
            events@.len() > 0 ==> r == Ok::<BatchProof, BatchError>(proof_of(event_ids(events@))),
    {
        if events.len() == 0 {
            return Err(BatchError::EmptyBatch);
        }
        let event_count = events.len();
        let leaves = leaves_of(events);
        let merkle_root = compute_merkle_root(leaves.as_slice());
        let batch_id = compute_batch_id(&merkle_root, event_count as u64);
        Ok(BatchProof { merkle_root, event_count, batch_id })
    }

    /// Check the proof against a list of events: the count, the Merkle root
    /// and the batch id must all match.
    pub fn verify(&self, events: &[Event]) -> (r: Result<(), BatchError>)
        ensures
            r is Ok <==> (events@.len() == self.event_count && events@.len() > 0 && self.merkle_root
                == batch_root(batch_leaves(event_ids(events@))) && self.batch_id == batch_id_of(
                self.merkle_root,
                self.event_count as u64,
            )),
            events@.len() != self.event_count ==> r matches Err(BatchError::InvalidProof(_)),
            events@.len() == self.event_count && events@.len() == 0 ==> r matches Err(BatchError::EmptyBatch),
            r matches Err(e) ==> e is InvalidProof || e is EmptyBatch,
    {
        if events.len() != self.event_count {
            let mut msg = String::from_str("event count mismatch: proof says ");
            let a = crate::consensus::decimal_string(self.event_count as u64);
            msg.append(a.as_str());
            msg.append(", got ");
            let b = crate::consensus::decimal_string(events.len() as u64);
            msg.append(b.as_str());
            return Err(BatchError::InvalidProof(msg));
        }
        if events.len() == 0 {
            return Err(BatchError::EmptyBatch);
        }
        let leaves = leaves_of(events);
        let expected_root = compute_merkle_root(leaves.as_slice());
        if !id_eq(&expected_root, &self.merkle_root) {
            return Err(BatchError::InvalidProof("Merkle root mismatch".to_owned()));
        }
        let expected_id = compute_batch_id(&self.merkle_root, self.event_count as u64);
        if !id_eq(&expected_id, &self.batch_id) {
            return Err(BatchError::InvalidProof("batch ID mismatch".to_owned()));
        }
        Ok(())
    }
}

/// A batch of events with its proof.
pub struct ConsensusEventBatch {
    /// The events.
    pub events: Vec<Event>,
    /// The proof over the events.
    pub proof: BatchProof,
    /// The node that formed the batch.
    pub creator: NodeId,
    /// The batch's number, counting up per creator.
    pub sequence: u64,
    /// The creator's vector clock when the batch was formed.
    pub vector_clock: VectorClock,
    /// Creation time (milliseconds since the UNIX epoch).
    pub timestamp: u64,
}

/// Every event's id is the hash of its content.
pub open spec fn all_hashes_valid(events: Seq<Event>) -> bool {
    forall|i: int| 0 <= i < events.len() ==> (#[trigger] events[i]).payload@.len() <= u64::MAX
        && events[i].id == event_hash(events[i]@)
}

impl ConsensusEventBatch {
    /// Validate the batch: not empty, not larger than `max_batch_size`, a
    /// matching proof, and every event's id the hash of its content. Events
    /// already in `graph` are not an error.
    pub fn validate(&self, graph: &CausalGraph, max_batch_size: usize) -> (r: Result<(), BatchError>)
        ensures
            self.events@.len() == 0 ==> r matches Err(BatchError::EmptyBatch),
            self.events@.len() > max_batch_size ==> r == Err::<(), BatchError>(
                BatchError::BatchTooLarge(self.events@.len() as usize, max_batch_size),
            ),
            r is Ok <==> (0 < self.events@.len() <= max_batch_size && self.proof.verify_spec(self.events@)
                && all_hashes_valid(self.events@)),
            0 < self.events@.len() <= max_batch_size && self.proof.verify_spec(self.events@)
                && !all_hashes_valid(self.events@) ==> r matches Err(BatchError::EventValidationFailed(_)),
    {
        if self.events.len() == 0 {
            return Err(BatchError::EmptyBatch);
        }
        if self.events.len() > max_batch_size {
            return Err(BatchError::BatchTooLarge(self.events.len(), max_batch_size));
        }
        match self.validate_proof() {
            Ok(()) => {},
            Err(e) => {
                return Err(e);
            },
        }
        let mut i: usize = 0;
        while i < self.events.len()
            invariant
                i <= self.events@.len(),
                0 < self.events@.len() <= max_batch_size,
                self.proof.verify_spec(self.events@),
                forall|j: int| 0 <= j < i ==> (#[trigger] self.events@[j]).payload@.len() <= u64::MAX
                    && self.events@[j].id == event_hash(self.events@[j]@),
            decreases self.events@.len() - i,
        {
            if !self.events[i].verify_hash() {
                let mut prefix: Vec<u8> = Vec::new();
                let mut k: usize = 0;
                while k < 4
                    invariant
                        k <= 4,
                        i < self.events@.len(),
                    decreases 4 - k,
                {
                    prefix.push(self.events[i].id[k]);
                    k = k + 1;
                }
                return Err(BatchError::EventValidationFailed(hash_failure_message(prefix.as_slice())));
            }
            i = i + 1;
        }
        Ok(())
    }

    /// Validate the proof against the events.
    pub fn validate_proof(&self) -> (r: Result<(), BatchError>)
        ensures
            r is Ok <==> self.proof.verify_spec(self.events@),
            r matches Err(e) ==> e is InvalidProof || e is EmptyBatch,
    {
        self.proof.verify(self.events.as_slice())
    }

    /// Check that the batch's Merkle root is `expected_root`.
    pub fn validate_state_root(&self, expected_root: &[u8; 32]) -> (r: Result<(), BatchError>)
        ensures
            self.proof.merkle_root == *expected_root ==> r is Ok,
            self.proof.merkle_root != *expected_root ==> r == Err::<(), BatchError>(
                BatchError::InvalidStateRoot { expected: *expected_root, actual: self.proof.merkle_root },
            ),
    {
        if !id_eq(&self.proof.merkle_root, expected_root) {
            return Err(BatchError::InvalidStateRoot { expected: *expected_root, actual: self.proof.merkle_root });
        }
        Ok(())
    }

    /// Form a batch of `events` stamped with the current time: fails with
    /// `EmptyBatch` for no event and `BatchTooLarge` for more than
    /// `max_batch_size`.
    pub fn new(
        events: Vec<Event>,
        creator: NodeId,
        sequence: u64,
        vector_clock: VectorClock,
        max_batch_size: usize,
    ) -> (r: Result<Self, BatchError>)
        ensures
            events@.len() == 0 ==> r matches Err(BatchError::EmptyBatch),
            events@.len() > max_batch_size ==> r == Err::<Self, BatchError>(
                BatchError::BatchTooLarge(events@.len() as usize, max_batch_size),
            ),
            0 < events@.len() <= max_batch_size ==> (r matches Ok(b) && b.events@ == events@ && b.proof
                == proof_of(event_ids(events@)) && b.creator == creator && b.sequence == sequence
                && b.vector_clock@ == vector_clock@),
    {
        if events.len() == 0 {
            return Err(BatchError::EmptyBatch);
        }
        if events.len() > max_batch_size {
            return Err(BatchError::BatchTooLarge(events.len(), max_batch_size));
        }
        let proof = match BatchProof::compute(events.as_slice()) {
            Ok(p) => p,
            Err(e) => {
                return Err(e);
            },
        };
        let timestamp = crate::sys::current_timestamp();
        Ok(ConsensusEventBatch { events, proof, creator, sequence, vector_clock, timestamp })
    }
}

impl BatchProof {
    /// The proof matches the events.
    pub open spec fn verify_spec(&self, events: Seq<Event>) -> bool {
        &&& events.len() == self.event_count
        &&& events.len() > 0
        &&& self.merkle_root == batch_root(batch_leaves(event_ids(events)))
        &&& self.batch_id == batch_id_of(self.merkle_root, self.event_count as u64)
    }
}

/// Buffers events and forms batches of them.
pub struct BatchIngestor {
    buffer: Vec<Event>,
    config: BatchConfig,
    batch_sequence: u64,
    creator: NodeId,
    vector_clock: VectorClock,
}

impl BatchIngestor {
    /// The buffered events.
    pub closed spec fn buffered(&self) -> Seq<EventView> {
        self.buffer@.map_values(|e: Event| e@)
    }

    /// The number the next batch will carry.
    pub closed spec fn next_sequence(&self) -> u64 {
        self.batch_sequence
    }

    /// The merge of the clocks of all submitted events.
    pub closed spec fn clock(&self) -> Map<NodeId, u64> {
        self.vector_clock@
    }

    /// The configuration.
    pub closed spec fn settings(&self) -> BatchConfig {
        self.config
    }

    /// The node that forms the batches.
    pub closed spec fn batch_creator(&self) -> NodeId {
        self.creator
    }

    /// An ingestor with no buffered event, batch number zero and an empty clock.
    pub fn new(config: BatchConfig, creator: NodeId) -> (r: Self)
        ensures
            r.buffered() == Seq::<EventView>::empty(),
            r.next_sequence() == 0,
            r.clock() == Map::<NodeId, u64>::empty(),
            r.settings() == config,
            r.batch_creator() == creator,
    {
        let r = BatchIngestor {
            buffer: Vec::new(),
            config,
            batch_sequence: 0,
            creator,
            vector_clock: VectorClock::new(),
        };
        proof {
            assert(r.buffered() =~= Seq::<EventView>::empty());
        }
        r
    }

    /// Buffer `event` after merging its clock into the ingestor's; when the
    /// buffer reaches the flush size, flush it.
    pub fn submit(&mut self, event: Event) -> (r: Option<ConsensusEventBatch>)
        ensures
            final(self).clock() == max_merge(old(self).clock(), event.vector_clock@),
            final(self).settings() == old(self).settings(),
            final(self).batch_creator() == old(self).batch_creator(),
            old(self).buffered().len() + 1 < old(self).settings().flush_size ==> r is None
                && final(self).buffered() == old(self).buffered().push(event@)
                && final(self).next_sequence() == old(self).next_sequence(),
            old(self).buffered().len() + 1 >= old(self).settings().flush_size ==> {
                &&& final(self).buffered() == Seq::<EventView>::empty()
                &&& final(self).next_sequence() == if old(self).next_sequence() < u64::MAX {
                    (old(self).next_sequence() + 1) as u64
                } else {
                    u64::MAX
                }
                &&& old(self).buffered().len() + 1 <= old(self).settings().max_batch_size ==> (r matches Some(
                    b,
                ) && b.events@.map_values(|e: Event| e@) == old(self).buffered().push(event@)
                    && b.sequence == old(self).next_sequence() && b.creator == old(self).batch_creator()
                    && b.vector_clock@ == final(self).clock())
                &&& old(self).buffered().len() + 1 > old(self).settings().max_batch_size ==> r is None
            },
    {
        self.vector_clock.merge(&event.vector_clock);
        let ghost ev = event@;
        let ghost before = self.buffer@;
        self.buffer.push(event);
        proof {
            assert(self.buffered() =~= old(self).buffered().push(ev));
        }
        if self.buffer.len() >= self.config.flush_size {
            self.flush()
        } else {
            None
        }
    }

    /// Form a batch of the buffered events, emptying the buffer, and advance
    /// the batch number (saturating). `None` when nothing is buffered, or
    /// when more events are buffered than a batch may hold (they are dropped).
    pub fn flush(&mut self) -> (r: Option<ConsensusEventBatch>)
        ensures
            final(self).clock() == old(self).clock(),
            final(self).settings() == old(self).settings(),
            final(self).batch_creator() == old(self).batch_creator(),
            old(self).buffered().len() == 0 ==> r is None && final(self).buffered() == old(self).buffered()
                && final(self).next_sequence() == old(self).next_sequence(),
            old(self).buffered().len() > 0 ==> {
                &&& final(self).buffered() == Seq::<EventView>::empty()
                &&& final(self).next_sequence() == if old(self).next_sequence() < u64::MAX {
                    (old(self).next_sequence() + 1) as u64
                } else {
                    u64::MAX
                }
                &&& old(self).buffered().len() <= old(self).settings().max_batch_size ==> (r matches Some(b)
                    && b.events@.map_values(|e: Event| e@) == old(self).buffered() && b.sequence == old(
                    self,
                ).next_sequence() && b.creator == old(self).batch_creator() && b.vector_clock@ == old(
                    self,
                ).clock() && b.proof == proof_of(event_ids(b.events@)))
                &&& old(self).buffered().len() > old(self).settings().max_batch_size ==> r is None
            },
    {
        if self.buffer.len() == 0 {
            return None;
        }
        let mut events: Vec<Event> = Vec::new();
        std::mem::swap(&mut events, &mut self.buffer);
        let sequence = self.batch_sequence;
        self.batch_sequence = self.batch_sequence.saturating_add(1);
        proof {
            assert(self.buffered() =~= Seq::<EventView>::empty());
        }
        match ConsensusEventBatch::new(events, self.creator, sequence, self.vector_clock.clone_clock(), self.config.max_batch_size) {
            Ok(b) => Some(b),
            Err(_) => None,
        }
    }

    /// Number of buffered events.
    pub fn buffered_count(&self) -> (r: usize)
        ensures
            r == self.buffered().len(),
    {
        self.buffer.len()
    }

    /// The number the next batch will carry.
    pub fn sequence(&self) -> (r: u64)
        ensures
            r == self.next_sequence(),
    {
        self.batch_sequence
    }

    /// The merged clock of all submitted events.
    pub fn vector_clock(&self) -> (r: &VectorClock)
        ensures
            r@ == self.clock(),
    {
        &self.vector_clock
    }

    /// The configuration.
    pub fn config(&self) -> (r: &BatchConfig)
        ensures
            *r == self.settings(),
    {
        &self.config
    }
}

/// A batch proof computed from a list of events verifies against it.
pub proof fn lemma_computed_proof_verifies(events: Seq<Event>)
    requires
        events.len() > 0,
        events.len() <= usize::MAX,
    ensures
        proof_of(event_ids(events)).verify_spec(events),
{
}

} // verus!
