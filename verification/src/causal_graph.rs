//! The causal graph: a DAG of events linked to their self- and other-parent.
//!
//! Events are stored once, indexed by id and by creator. The graph tracks the
//! current tips, the highest sequence per creator, the frontier vector clock
//! and the depth of every event. Per-creator sequence monotonicity is
//! enforced at insertion (out-of-order events wait in a bounded buffer),
//! which keeps cycle detection to a check of the parents' sequences.
use vstd::prelude::*;
use vstd::string::StringSliceAdditionalSpecFns;
use crate::ids::EventId;
use crate::ids::NodeId;
use crate::ids::id_eq;
use crate::vec_map::VecMap;
use crate::vector_clock::VectorClock;
use crate::vector_clock::max_merge;
use crate::vector_clock::count_at;
use crate::vector_clock::vc_happened_before;
use crate::vector_clock::vc_concurrent;
use crate::slashing::seq_at;
use crate::event::Event;
use crate::event::EventView;
use crate::event::EventStatus;
use crate::event::event_hash;
use crate::crypto::hex_encode;
use crate::crypto::hex_lower;
use crate::crypto::domain_hash;
use crate::crypto::blake3_hash_domain;
use crate::crypto::append_bytes;
use crate::ids::sort_ids;
use crate::ids::sorted_listing_of;
use crate::ids::lemma_sorted_listing_of;
use crate::ids::lemma_sorted_permutation_strict;

verus! {

/// Maximum depth of an event, and of an ancestry traversal.
pub const MAX_ANCESTRY_DEPTH: usize = 1_000_000;

/// Maximum number of distinct events visited by an ancestry traversal.
pub const MAX_ANCESTRY_VISITED: usize = 100_000;

/// Number of tips above which the oldest tips are dropped.
pub const MAX_TIPS: usize = 10_000;

/// Maximum number of pruned-event metadata entries retained.
pub const MAX_PRUNED_EVENTS: usize = 50_000;

/// Maximum number of out-of-order events buffered per creator.
pub const MAX_SEQUENCE_BUFFER_PER_CREATOR: usize = 256;

/// Maximum distance of a buffered event's sequence from the expected one.
pub const MAX_SEQUENCE_GAP: u64 = 512;

/// Errors of causal graph operations. Ids in messages are the hex of their
/// first eight bytes.
#[derive(Debug, Clone, PartialEq)]
pub enum CausalGraphError {
    /// An event with this id is already in the graph.
    DuplicateEvent(String),
    /// A referenced parent is not in the graph.
    MissingParent(String),
    /// Adding the event would create a cycle.
    CycleDetected(String),
    /// A depth or traversal bound was exceeded.
    MaxDepthExceeded(String),
    /// The event failed validation, or is unknown.
    InvalidEvent(String),
    /// The graph's integrity check failed.
    IntegrityError(String),
    /// The event was pruned; only its metadata remains.
    EventPruned(String),
    /// The event's sequence is below the creator's latest.
    InvalidSequence {
        /// The creator.
        creator: NodeId,
        /// The expected next sequence.
        expected: u64,
        /// The event's sequence.
        actual: u64,
    },
    /// Too many out-of-order events are buffered for the creator.
    SequenceBufferOverflow {
        /// The creator.
        creator: NodeId,
    },
    /// The event's sequence is too far ahead of the expected one.
    SequenceGapTooLarge {
        /// The creator.
        creator: NodeId,
        /// The expected next sequence.
        expected: u64,
        /// The event's sequence.
        actual: u64,
        /// The largest allowed gap.
        max_gap: u64,
    },
}

/// The message of a graph error.
pub open spec fn graph_error_text(e: CausalGraphError) -> Seq<char> {
    match e {
        CausalGraphError::DuplicateEvent(m) => "Event already exists in graph: "@ + m@,
        CausalGraphError::MissingParent(m) => "Parent event not found: "@ + m@,
        CausalGraphError::CycleDetected(m) => "Cycle detected: "@ + m@,
        CausalGraphError::MaxDepthExceeded(m) => "Maximum ancestry depth exceeded starting from "@ + m@,
        CausalGraphError::InvalidEvent(m) => "Invalid event: "@ + m@,
        CausalGraphError::IntegrityError(m) => "Graph integrity check failed: "@ + m@,
        CausalGraphError::EventPruned(m) => "Event has been pruned: "@ + m@,
        CausalGraphError::InvalidSequence { .. } => "Invalid sequence"@,
        CausalGraphError::SequenceBufferOverflow { .. } => "Sequence buffer overflow: too many out-of-order events"@,
        CausalGraphError::SequenceGapTooLarge { .. } => "Sequence gap too large"@,
    }
}

impl CausalGraphError {
    /// A human-readable description.
    pub fn message(&self) -> (r: String)
        ensures
            r@ == graph_error_text(*self),
    {
        match self {
            CausalGraphError::DuplicateEvent(m) => {
                let mut s = String::from_str("Event already exists in graph: ");
                s.append(m.as_str());
                s
            },
            CausalGraphError::MissingParent(m) => {
                let mut s = String::from_str("Parent event not found: ");
                s.append(m.as_str());
                s
            },
            CausalGraphError::CycleDetected(m) => {
                let mut s = String::from_str("Cycle detected: ");
                s.append(m.as_str());
                s
            },
            CausalGraphError::MaxDepthExceeded(m) => {
                let mut s = String::from_str("Maximum ancestry depth exceeded starting from ");
                s.append(m.as_str());
                s
            },
            CausalGraphError::InvalidEvent(m) => {
                let mut s = String::from_str("Invalid event: ");
                s.append(m.as_str());
                s
            },
            CausalGraphError::IntegrityError(m) => {
                let mut s = String::from_str("Graph integrity check failed: ");
                s.append(m.as_str());
                s
            },
            CausalGraphError::EventPruned(m) => {
                let mut s = String::from_str("Event has been pruned: ");
                s.append(m.as_str());
                s
            },
            CausalGraphError::InvalidSequence { .. } => String::from_str("Invalid sequence"),
            CausalGraphError::SequenceBufferOverflow { .. } => String::from_str(
                "Sequence buffer overflow: too many out-of-order events",
            ),
            CausalGraphError::SequenceGapTooLarge { .. } => String::from_str("Sequence gap too large"),
        }
    }
}

/// Statistics about the graph.
#[derive(Debug, Clone, Copy, PartialEq, Eq, Structural)]
pub struct GraphStats {
    /// Number of live events.
    pub total_events: usize,
    /// Number of tips.
    pub tip_count: usize,
    /// Number of creators with a recorded sequence.
    pub node_count: usize,
    /// Largest depth reached.
    pub max_depth: usize,
    /// Number of finalized events.
    pub finalized_events: usize,
    /// Number of pending or gossiped events.
    pub pending_events: usize,
}

/// What remains of a pruned event.
#[derive(Debug, Clone, Copy)]
pub struct PrunedEventMetadata {
    /// The event id.
    pub event_id: EventId,
    /// The creator.
    pub creator: NodeId,
    /// The sequence number.
    pub sequence: u64,
    /// The event's depth in the graph.
    pub depth: usize,
    /// The round at which the event was finalized.
    pub finalized_round: u64,
}

/// The hex of an id's first eight bytes, as used in messages.
pub open spec fn short_id(id: [u8; 32]) -> Seq<char> {
    hex_lower(id@.subrange(0, 8))
}

/// The hex of the first eight bytes of `id`.
pub fn short_hex(id: &[u8; 32]) -> (r: String)
    ensures
        r@ == short_id(*id),
{
    let mut v: Vec<u8> = Vec::new();
    let mut i: usize = 0;
    while i < 8
        invariant
            i <= 8,
            v@ == id@.subrange(0, i as int),
        decreases 8 - i,
    {
        v.push(id[i]);
        i = i + 1;
        proof {
            assert(v@ =~= id@.subrange(0, i as int));
        }
    }
    hex_encode(v.as_slice())
}

/// `prefix` followed by the short hex of `id`.
pub(crate) fn message_with_id(prefix: &str, id: &[u8; 32]) -> (r: String)
    ensures
        r@ == prefix@ + short_id(*id),
{
    let mut s = String::from_str(prefix);
    let h = short_hex(id);
    s.append(h.as_str());
    s
}

/// The parents an event names.
pub open spec fn parent_set(e: EventView) -> Set<EventId> {
    let a = match e.self_parent {
        Some(p) => set![p],
        None => Set::empty(),
    };
    let b = match e.other_parent {
        Some(p) => set![p],
        None => Set::empty(),
    };
    a + b
}

/// Out-of-order events waiting for their predecessors, per creator and
/// sequence.
pub struct SequenceBuffer {
    buffers: VecMap<NodeId, VecMap<u64, Event>>,
}

/// The mathematical content of a buffer.
pub open spec fn buffer_view(b: Map<NodeId, VecMap<u64, Event>>) -> Map<NodeId, Map<u64, EventView>> {
    b.map_values(|m: VecMap<u64, Event>| m@.map_values(|e: Event| e@))
}

impl SequenceBuffer {
    /// Internal consistency.
    pub closed spec fn wf(&self) -> bool {
        &&& self.buffers.wf()
        &&& forall|c: NodeId| #[trigger] self.buffers@.contains_key(c) ==> self.buffers@[c].wf()
    }

    /// The buffered events per creator and sequence.
    pub closed spec fn model(&self) -> Map<NodeId, Map<u64, EventView>> {
        buffer_view(self.buffers@)
    }

    /// An empty buffer.
    pub fn new() -> (r: SequenceBuffer)
        ensures
            r.wf(),
            r.model() == Map::<NodeId, Map<u64, EventView>>::empty(),
    {
        let r = SequenceBuffer { buffers: VecMap::new() };
        proof {
            assert(r.model() =~= Map::<NodeId, Map<u64, EventView>>::empty());
        }
        r
    }
}

/// The mathematical state of a causal graph.
pub struct GraphModel {
    /// Live events by id.
    pub events: Map<EventId, EventView>,
    /// Event ids per creator, in insertion order.
    pub by_creator: Map<NodeId, Seq<EventId>>,
    /// Events not yet referenced as a parent.
    pub tips: Set<EventId>,
    /// Highest inserted sequence per creator.
    pub node_sequences: Map<NodeId, u64>,
    /// Component-wise maximum of all inserted clocks.
    pub frontier: Map<NodeId, u64>,
    /// Largest depth reached.
    pub max_depth: usize,
    /// Number of finalized events.
    pub finalized_count: usize,
    /// Depth of every event.
    pub depths: Map<EventId, usize>,
    /// Metadata of pruned events.
    pub pruned: Map<EventId, PrunedEventMetadata>,
    /// Pruned ids, oldest first.
    pub pruned_order: Seq<EventId>,
    /// Finalization round per event.
    pub finalized_rounds: Map<EventId, u64>,
    /// Out-of-order events waiting for their predecessor.
    pub buffer: Map<NodeId, Map<u64, EventView>>,
}

/// The causal graph.
pub struct CausalGraph {
    events: VecMap<EventId, Event>,
    by_creator: VecMap<NodeId, Vec<EventId>>,
    tips: VecMap<EventId, ()>,
    node_sequences: VecMap<NodeId, u64>,
    frontier: VectorClock,
    max_depth: usize,
    finalized_count: usize,
    depths: VecMap<EventId, usize>,
    pruned_events: VecMap<EventId, PrunedEventMetadata>,
    pruned_order: Vec<EventId>,
    finalized_rounds: VecMap<EventId, u64>,
    seq_buffer: SequenceBuffer,
}

impl View for CausalGraph {
    type V = GraphModel;

    closed spec fn view(&self) -> GraphModel {
        GraphModel {
            events: self.events@.map_values(|e: Event| e@),
            by_creator: self.by_creator@.map_values(|v: Vec<EventId>| v@),
            tips: self.tips@.dom(),
            node_sequences: self.node_sequences@,
            frontier: self.frontier@,
            max_depth: self.max_depth,
            finalized_count: self.finalized_count,
            depths: self.depths@,
            pruned: self.pruned_events@,
            pruned_order: self.pruned_order@,
            finalized_rounds: self.finalized_rounds@,
            buffer: self.seq_buffer.model(),
        }
    }
}

/// A graph with nothing in it.
pub open spec fn empty_graph() -> GraphModel {
    GraphModel {
        events: Map::empty(),
        by_creator: Map::empty(),
        tips: Set::empty(),
        node_sequences: Map::empty(),
        frontier: Map::empty(),
        max_depth: 0,
        finalized_count: 0,
        depths: Map::empty(),
        pruned: Map::empty(),
        pruned_order: Seq::empty(),
        finalized_rounds: Map::empty(),
        buffer: Map::empty(),
    }
}

impl CausalGraph {
    /// Internal consistency of the indexes.
    pub closed spec fn wf(&self) -> bool {
        &&& self.events.wf()
        &&& self.by_creator.wf()
        &&& self.tips.wf()
        &&& self.node_sequences.wf()
        &&& self.depths.wf()
        &&& self.pruned_events.wf()
        &&& self.finalized_rounds.wf()
        &&& self.seq_buffer.wf()
        &&& forall|id: EventId| #[trigger] self.depths@.contains_key(id) ==> self.depths@[id] <= MAX_ANCESTRY_DEPTH
        &&& forall|id: EventId| #[trigger] self.events@.contains_key(id) ==> self.events@[id].id == id
        &&& forall|id: EventId| #[trigger] self.finalized_rounds@.contains_key(id) ==> self.events@.contains_key(id)
    }

    /// Graph law: the live events are finitely many, and every recorded
    /// finalization round belongs to a live event, so the events due for
    /// pruning are all live.
    pub proof fn lemma_model_facts(&self)
        requires
            self.wf(),
        ensures
            self@.events.dom().finite(),
            forall|id: EventId| #[trigger] self@.finalized_rounds.contains_key(id) ==> self@.events.contains_key(id),
            forall|cutoff: u64| #[trigger] prune_set(self@, cutoff) == live_prune_set(self@, cutoff),
    {
        self.events.lemma_entries();
        assert(self@.events.dom() =~= self.events@.dom());
        assert forall|cutoff: u64| #[trigger] prune_set(self@, cutoff) == live_prune_set(self@, cutoff) by {
            assert(prune_set(self@, cutoff) =~= live_prune_set(self@, cutoff));
        }
    }

    /// Merkle law: a graph holding `id` has a non-empty state, and the
    /// inclusion path `merkle_proof` gives for `id` folds from its leaf to
    /// the state root.
    pub proof fn lemma_merkle_proof_folds_to_state_root(&self, id: EventId, path: Seq<([u8; 32], bool)>)
        requires
            self.wf(),
            self@.events.contains_key(id),
            exists|idx: int|
                0 <= idx < sorted_event_ids(self@).len() && sorted_event_ids(self@)[idx] == id && path == merkle_path_of(
                    state_leaves(self@),
                    idx,
                ),
        ensures
            self@.events.len() > 0,
            fold_path(state_leaf(id), path) == state_root_of(self@),
    {
        self.lemma_model_facts();
        vstd::set_lib::lemma_set_empty_equivalency_len(self@.events.dom());
        let idx = choose|idx: int|
            0 <= idx < sorted_event_ids(self@).len() && sorted_event_ids(self@)[idx] == id && path == merkle_path_of(
                state_leaves(self@),
                idx,
            );
        lemma_state_proof_verifies(self@, id, idx);
    }

    /// An empty graph.
    pub fn new() -> (r: CausalGraph)
        ensures
            r.wf(),
            r@ == empty_graph(),
    {
        let r = CausalGraph {
            events: VecMap::new(),
            by_creator: VecMap::new(),
            tips: VecMap::new(),
            node_sequences: VecMap::new(),
            frontier: VectorClock::new(),
            max_depth: 0,
            finalized_count: 0,
            depths: VecMap::new(),
            pruned_events: VecMap::new(),
            pruned_order: Vec::new(),
            finalized_rounds: VecMap::new(),
            seq_buffer: SequenceBuffer::new(),
        };
        proof {
            assert(r@.events =~= Map::<EventId, EventView>::empty());
            assert(r@.by_creator =~= Map::<NodeId, Seq<EventId>>::empty());
            assert(r@.tips =~= Set::<EventId>::empty());
        }
        r
    }

    /// The live event with this id, if any (none for pruned events).
    pub fn get(&self, event_id: &EventId) -> (r: Option<&Event>)
        requires
            self.wf(),
        ensures
            r.is_some() == self@.events.contains_key(*event_id),
            r matches Some(e) ==> e@ == self@.events[*event_id],
    {
        self.events.get(event_id)
    }

    /// The live event with this id; `EventPruned` for a pruned event and
    /// `InvalidEvent` for an unknown one.
    pub fn get_checked(&self, event_id: &EventId) -> (r: Result<&Event, CausalGraphError>)
        requires
            self.wf(),
        ensures
            self@.events.contains_key(*event_id) ==> (r matches Ok(e) && e@ == self@.events[*event_id]),
            !self@.events.contains_key(*event_id) ==> (r matches Err(err) && (
                if self@.pruned.contains_key(*event_id) {
                    err matches CausalGraphError::EventPruned(s) && s@ == short_id(*event_id)
                } else {
                    err matches CausalGraphError::InvalidEvent(s) && s@ == "event not found: "@ + short_id(*event_id)
                })),
    {
        match self.events.get(event_id) {
            Some(e) => Ok(e),
            None => {
                if self.pruned_events.contains_key(event_id) {
                    Err(CausalGraphError::EventPruned(short_hex(event_id)))
                } else {
                    Err(CausalGraphError::InvalidEvent(message_with_id("event not found: ", event_id)))
                }
            },
        }
    }

    /// The metadata of a pruned event.
    pub fn get_pruned_metadata(&self, event_id: &EventId) -> (r: Option<&PrunedEventMetadata>)
        requires
            self.wf(),
        ensures
            r.is_some() == self@.pruned.contains_key(*event_id),
            r matches Some(m) ==> *m == self@.pruned[*event_id],
    {
        self.pruned_events.get(event_id)
    }

    /// Whether the event has been pruned.
    pub fn is_pruned(&self, event_id: &EventId) -> (r: bool)
        requires
            self.wf(),
        ensures
            r == self@.pruned.contains_key(*event_id),
    {
        self.pruned_events.contains_key(event_id)
    }

    /// Whether the event is live in the graph.
    pub fn contains(&self, event_id: &EventId) -> (r: bool)
        requires
            self.wf(),
        ensures
            r == self@.events.contains_key(*event_id),
    {
        self.events.contains_key(event_id)
    }

    /// The ids of all live events, each once.
    pub fn event_ids(&self) -> (r: Vec<EventId>)
        requires
            self.wf(),
        ensures
            r@.no_duplicates(),
            r@.to_set() == self@.events.dom(),
    {
        proof {
            self.events.lemma_entries();
        }
        let n = self.events.len();
        let mut r: Vec<EventId> = Vec::new();
        let mut i: usize = 0;
        while i < n
            invariant
                self.events.wf(),
                n == self.events.entry_seq().len(),
                i <= n,
                r@ == self.events.key_seq().subrange(0, i as int),
            decreases n - i,
        {
            r.push(*self.events.key_at(i));
            i = i + 1;
            proof {
                assert(r@ =~= self.events.key_seq().subrange(0, i as int));
            }
        }
        proof {
            self.events.lemma_entries();
            assert(r@ =~= self.events.key_seq());
            assert forall|a: int, b: int| 0 <= a < r@.len() && 0 <= b < r@.len() && a != b implies r@[a] != r@[b] by {
                assert(r@[a] == self.events.entry_seq()[a].0);
                assert(r@[b] == self.events.entry_seq()[b].0);
            }
            assert(self@.events.dom() =~= self.events@.dom());
        }
        r
    }

    /// Number of live events.
    pub fn len(&self) -> (r: usize)
        requires
            self.wf(),
        ensures
            r == self@.events.len(),
    {
        proof {
            self.events.lemma_entries();
            assert(self@.events.dom() =~= self.events@.dom());
        }
        self.events.len()
    }

    /// Whether the graph holds no live event.
    pub fn is_empty(&self) -> (r: bool)
        requires
            self.wf(),
        ensures
            r == (self@.events.len() == 0),
    {
        self.len() == 0
    }

    /// The current tips, each once.
    pub fn tips(&self) -> (r: Vec<EventId>)
        requires
            self.wf(),
        ensures
            r@.no_duplicates(),
            r@.to_set() == self@.tips,
    {
        proof {
            self.tips.lemma_entries();
        }
        let n = self.tips.len();
        let mut r: Vec<EventId> = Vec::new();
        let mut i: usize = 0;
        while i < n
            invariant
                self.tips.wf(),
                n == self.tips.entry_seq().len(),
                i <= n,
                r@ == self.tips.key_seq().subrange(0, i as int),
            decreases n - i,
        {
            r.push(*self.tips.key_at(i));
            i = i + 1;
            proof {
                assert(r@ =~= self.tips.key_seq().subrange(0, i as int));
            }
        }
        proof {
            self.tips.lemma_entries();
            assert(r@ =~= self.tips.key_seq());
            assert forall|a: int, b: int| 0 <= a < r@.len() && 0 <= b < r@.len() && a != b implies r@[a] != r@[b] by {
                assert(r@[a] == self.tips.entry_seq()[a].0);
                assert(r@[b] == self.tips.entry_seq()[b].0);
            }
        }
        r
    }

    /// The frontier vector clock.
    pub fn frontier(&self) -> (r: &VectorClock)
        ensures
            r@ == self@.frontier,
    {
        &self.frontier
    }

    /// The highest inserted sequence of `node_id`, 0 when none.
    pub fn latest_sequence(&self, node_id: &NodeId) -> (r: u64)
        requires
            self.wf(),
        ensures
            r == (if self@.node_sequences.contains_key(*node_id) { self@.node_sequences[*node_id] } else { 0 }),
    {
        match self.node_sequences.get(node_id) {
            Some(s) => *s,
            None => 0,
        }
    }
}


/// Why an insertion was refused.
pub enum InsertFailure {
    /// The id is already live.
    Duplicate,
    /// The id does not match the content.
    BadHash,
    /// The sequence is below the creator's latest.
    StaleSequence { expected: u64 },
    /// A parent is unknown.
    MissingParent { parent: EventId, is_self: bool },
    /// A parent was pruned.
    PrunedParent { parent: EventId },
    /// A same-creator parent does not have a lower sequence.
    Cycle,
    /// The event would be deeper than the limit.
    TooDeep,
    /// The creator's buffer is full.
    BufferOverflow,
    /// The sequence is too far ahead.
    GapTooLarge { expected: u64 },
}

/// Whether `err` is the error reported for `f` on event `e`.
pub open spec fn error_matches(err: CausalGraphError, f: InsertFailure, e: EventView) -> bool {
    match f {
        InsertFailure::Duplicate => err matches CausalGraphError::DuplicateEvent(s) && s@ == short_id(e.id),
        InsertFailure::BadHash => err matches CausalGraphError::InvalidEvent(s) && s@ == "hash mismatch for "@
            + short_id(e.id),
        InsertFailure::StaleSequence { expected } => err == CausalGraphError::InvalidSequence {
            creator: e.creator,
            expected,
            actual: e.sequence,
        },
        InsertFailure::MissingParent { parent, is_self } => err matches CausalGraphError::MissingParent(s) && s@ == (
        if is_self {
            "self-parent "@
        } else {
            "other-parent "@
        }) + short_id(parent),
        InsertFailure::PrunedParent { parent } => err matches CausalGraphError::EventPruned(s) && s@ == short_id(
            parent,
        ),
        InsertFailure::Cycle => err matches CausalGraphError::CycleDetected(s) && s@ == short_id(e.id),
        InsertFailure::TooDeep => err matches CausalGraphError::MaxDepthExceeded(s) && s@ == short_id(e.id),
        InsertFailure::BufferOverflow => err == CausalGraphError::SequenceBufferOverflow { creator: e.creator },
        InsertFailure::GapTooLarge { expected } => err == CausalGraphError::SequenceGapTooLarge {
            creator: e.creator,
            expected,
            actual: e.sequence,
            max_gap: MAX_SEQUENCE_GAP,
        },
    }
}

/// The stored depth of an event, 0 when none.
pub open spec fn depth_of(m: GraphModel, id: EventId) -> usize {
    if m.depths.contains_key(id) {
        m.depths[id]
    } else {
        0
    }
}

/// The failure caused by parent `p` of `e`, if any.
pub open spec fn parent_failure(m: GraphModel, e: EventView, p: Option<EventId>, is_self: bool) -> Option<
    InsertFailure,
> {
    match p {
        None => None,
        Some(pid) => if m.events.contains_key(pid) {
            if m.events[pid].creator == e.creator && m.events[pid].sequence >= e.sequence {
                Some(InsertFailure::Cycle)
            } else {
                None
            }
        } else if m.pruned.contains_key(pid) {
            Some(InsertFailure::PrunedParent { parent: pid })
        } else {
            Some(InsertFailure::MissingParent { parent: pid, is_self })
        },
    }
}

/// The depth contributed by parent `p`: its stored depth when it is live.
pub open spec fn parent_depth(m: GraphModel, p: Option<EventId>) -> usize {
    match p {
        Some(pid) => if m.events.contains_key(pid) {
            depth_of(m, pid)
        } else {
            0
        },
        None => 0,
    }
}

/// The depth a new event gets: one more than its deepest live parent.
pub open spec fn new_depth(m: GraphModel, e: EventView) -> int {
    let a = parent_depth(m, e.self_parent);
    let b = parent_depth(m, e.other_parent);
    (if a >= b {
        a
    } else {
        b
    }) + 1
}

/// Depth law: a new event's depth exceeds the depth of each of its live
/// parents and is exactly one more than the depth of one of them; with no
/// live parent it is 1.
pub proof fn lemma_new_depth_is_one_past_deepest_parent(m: GraphModel, e: EventView)
    ensures
        forall|p: EventId| #[trigger] parent_set(e).contains(p) && m.events.contains_key(p) ==> depth_of(m, p) < new_depth(m, e),
        (exists|p: EventId| #[trigger] parent_set(e).contains(p) && m.events.contains_key(p)) ==> exists|p: EventId|
            #[trigger] parent_set(e).contains(p) && m.events.contains_key(p) && new_depth(m, e) == depth_of(m, p) + 1,
        (forall|p: EventId| #[trigger] parent_set(e).contains(p) ==> !m.events.contains_key(p)) ==> new_depth(m, e) == 1,
{
    let a = parent_depth(m, e.self_parent);
    let b = parent_depth(m, e.other_parent);
    assert forall|p: EventId| #[trigger] parent_set(e).contains(p) && m.events.contains_key(p) implies depth_of(m, p) < new_depth(
        m,
        e,
    ) by {
        if e.self_parent == Some(p) {
        } else {
            assert(e.other_parent == Some(p));
        }
    }
    if exists|p: EventId| #[trigger] parent_set(e).contains(p) && m.events.contains_key(p) {
        let sp_live = e.self_parent is Some && m.events.contains_key(e.self_parent->Some_0);
        let op_live = e.other_parent is Some && m.events.contains_key(e.other_parent->Some_0);
        if sp_live && (a >= b || !op_live) {
            let p = e.self_parent->Some_0;
            assert(parent_set(e).contains(p));
            if !op_live {
                assert(b == 0);
            }
        } else if op_live {
            let p = e.other_parent->Some_0;
            assert(parent_set(e).contains(p));
            if !sp_live {
                assert(a == 0);
            }
        } else {
            let p = choose|p: EventId| #[trigger] parent_set(e).contains(p) && m.events.contains_key(p);
            if e.self_parent == Some(p) {
            } else {
                assert(e.other_parent == Some(p));
            }
        }
    } else {
        if let Some(p) = e.self_parent {
            assert(parent_set(e).contains(p));
        }
        if let Some(p) = e.other_parent {
            assert(parent_set(e).contains(p));
        }
    }
}

/// The failure of the structural insertion step, if any: parents first
/// (self-parent, then other-parent), then the depth limit.
pub open spec fn inner_failure(m: GraphModel, e: EventView) -> Option<InsertFailure> {
    if parent_failure(m, e, e.self_parent, true) is Some {
        parent_failure(m, e, e.self_parent, true)
    } else if parent_failure(m, e, e.other_parent, false) is Some {
        parent_failure(m, e, e.other_parent, false)
    } else if new_depth(m, e) > MAX_ANCESTRY_DEPTH {
        Some(InsertFailure::TooDeep)
    } else {
        None
    }
}

/// Larger of two sequence numbers.
pub open spec fn max_u64(a: u64, b: u64) -> u64 {
    if a >= b {
        a
    } else {
        b
    }
}

/// The graph after the structural insertion of `e` at `depth`, before the
/// tips are consolidated.
pub open spec fn inner_inserted(m: GraphModel, e: EventView, depth: usize) -> GraphModel {
    GraphModel {
        events: m.events.insert(e.id, e),
        by_creator: m.by_creator.insert(e.creator, seq_at(m.by_creator, e.creator).push(e.id)),
        tips: (m.tips - parent_set(e)).insert(e.id),
        node_sequences: m.node_sequences.insert(e.creator, max_u64(count_at(m.node_sequences, e.creator), e.sequence)),
        frontier: max_merge(m.frontier, e.clock),
        max_depth: if m.max_depth >= depth {
            m.max_depth
        } else {
            depth
        },
        finalized_count: if e.status == EventStatus::Finalized && m.finalized_count < usize::MAX {
            (m.finalized_count + 1) as usize
        } else {
            m.finalized_count
        },
        depths: m.depths.insert(e.id, depth),
        ..m
    }
}

/// How many tips a consolidation of `n` tips drops.
pub open spec fn tips_to_drop(n: int) -> int {
    n - MAX_TIPS + MAX_TIPS / 10
}

/// `after` is `before` with the oldest live tips dropped when there are more
/// than `MAX_TIPS`: only live tips go, none is younger than a live tip that
/// stays, and either the required number went or no live tip is left.
pub open spec fn tips_consolidated(events: Map<EventId, EventView>, before: Set<EventId>, after: Set<EventId>) -> bool {
    if before.len() <= MAX_TIPS {
        after == before
    } else {
        &&& after.subset_of(before)
        &&& forall|r: EventId| #[trigger] before.contains(r) && !after.contains(r) ==> events.contains_key(r)
        &&& forall|r: EventId, k: EventId|
            #![trigger before.contains(r), after.contains(k)]
            before.contains(r) && !after.contains(r) && after.contains(k) && events.contains_key(k)
                ==> events[r].timestamp <= events[k].timestamp
        &&& (before - after).len() == tips_to_drop(before.len() as int)
            || forall|k: EventId| #[trigger] after.contains(k) ==> !events.contains_key(k)
    }
}

impl CausalGraph {
    /// Check one parent of `event`; on success, the depth it contributes.
    fn check_parent(&self, event: &Event, p: &Option<EventId>, is_self: bool) -> (r: Result<usize, CausalGraphError>)
        requires
            self.wf(),
        ensures
            parent_failure(self@, event@, *p, is_self) matches Some(f) ==> (r matches Err(err) && error_matches(err, f, event@)),
            parent_failure(self@, event@, *p, is_self) is None ==> r == Ok::<usize, CausalGraphError>(parent_depth(self@, *p)),
    {
        match p {
            None => Ok(0),
            Some(pid) => {
                match self.events.get(pid) {
                    Some(parent) => {
                        if id_eq(&parent.creator, &event.creator) && parent.sequence >= event.sequence {
                            Err(CausalGraphError::CycleDetected(short_hex(&event.id)))
                        } else {
                            match self.depths.get(pid) {
                                Some(d) => Ok(*d),
                                None => Ok(0),
                            }
                        }
                    },
                    None => {
                        if self.pruned_events.contains_key(pid) {
                            Err(CausalGraphError::EventPruned(short_hex(pid)))
                        } else if is_self {
                            Err(CausalGraphError::MissingParent(message_with_id("self-parent ", pid)))
                        } else {
                            Err(CausalGraphError::MissingParent(message_with_id("other-parent ", pid)))
                        }
                    },
                }
            },
        }
    }

    /// Drop the oldest live tips when there are more than `MAX_TIPS`.
    fn consolidate_tips(&mut self)
        requires
            old(self).wf(),
        ensures
            final(self).wf(),
            final(self)@ == (GraphModel { tips: final(self)@.tips, ..old(self)@ }),
            tips_consolidated(old(self)@.events, old(self)@.tips, final(self)@.tips),
    {
        proof {
            self.tips.lemma_entries();
        }
        let n = self.tips.len();
        if n <= MAX_TIPS {
            return;
        }
        let to_remove = n - MAX_TIPS + MAX_TIPS / 10;
        let ghost before = self@.tips;
        let ghost evs = self@.events;
        let mut removed: usize = 0;
        proof {
            assert((before - self@.tips) =~= Set::<EventId>::empty());
        }
        loop
            invariant
                self.wf(),
                self@ == (GraphModel { tips: self@.tips, ..old(self)@ }),
                before == old(self)@.tips,
                evs == old(self)@.events,
                before.finite(),
                before.len() == n,
                n > MAX_TIPS,
                to_remove == tips_to_drop(n as int),
                removed <= to_remove,
                self@.tips.subset_of(before),
                (before - self@.tips).len() == removed,
                forall|r: EventId| #[trigger] before.contains(r) && !self@.tips.contains(r) ==> evs.contains_key(r),
                forall|r: EventId, k: EventId|
                    #![trigger before.contains(r), self@.tips.contains(k)]
                    before.contains(r) && !self@.tips.contains(r) && self@.tips.contains(k) && evs.contains_key(k)
                        ==> evs[r].timestamp <= evs[k].timestamp,
            ensures
                self.wf(),
                self@ == (GraphModel { tips: self@.tips, ..old(self)@ }),
                tips_consolidated(old(self)@.events, old(self)@.tips, self@.tips),
            decreases to_remove - removed,
        {
            if removed >= to_remove {
                break;
            }
            proof {
                self.tips.lemma_entries();
            }
            let m = self.tips.len();
            let mut best: Option<EventId> = None;
            let mut best_ts: u64 = 0;
            let mut i: usize = 0;
            while i < m
                invariant
                    self.wf(),
                    self@.events == evs,
                    m == self.tips.entry_seq().len(),
                    i <= m,
                    best matches Some(b) ==> self@.tips.contains(b) && evs.contains_key(b) && evs[b].timestamp == best_ts,
                    best matches Some(b) ==> forall|j: int| 0 <= j < i && #[trigger] evs.contains_key(self.tips.entry_seq()[j].0)
                        ==> best_ts <= evs[self.tips.entry_seq()[j].0].timestamp,
                    best is None ==> forall|j: int| 0 <= j < i ==> !#[trigger] evs.contains_key(self.tips.entry_seq()[j].0),
                decreases m - i,
            {
                let k = *self.tips.key_at(i);
                proof {
                    self.tips.lemma_entries();
                    assert(self.tips@.contains_key(self.tips.entry_seq()[i as int].0));
                }
                match self.events.get(&k) {
                    Some(e) => {
                        let better = match best {
                            None => true,
                            Some(_) => e.timestamp < best_ts,
                        };
                        if better {
                            best = Some(k);
                            best_ts = e.timestamp;
                        }
                    },
                    None => {},
                }
                i = i + 1;
            }
            proof {
                self.tips.lemma_entries();
            }
            match best {
                None => {
                    proof {
                        assert forall|k: EventId| #[trigger] self@.tips.contains(k) implies !evs.contains_key(k) by {
                            let j = choose|j: int| 0 <= j < self.tips.entry_seq().len() && #[trigger] self.tips.entry_seq()[j].0 == k;
                        }
                    }
                    break;
                },
                Some(b) => {
                    let ghost cur = self@.tips;
                    let ghost es = self.tips.entry_seq();
                    self.tips.remove(&b);
                    removed = removed + 1;
                    proof {
                        assert(self@.tips =~= cur.remove(b));
                        assert((before - self@.tips) =~= (before - cur).insert(b));
                        assert(!(before - cur).contains(b));
                        assert forall|k: EventId| #[trigger] cur.contains(k) && evs.contains_key(k) implies best_ts <= evs[k].timestamp by {
                            let j = choose|j: int| 0 <= j < es.len() && #[trigger] es[j].0 == k;
                        }
                    }
                },
            }
        }
    }
}


impl CausalGraph {
    /// The structural insertion: parents must be live (a pruned parent
    /// gives `EventPruned`, an unknown one `MissingParent`), a same-creator
    /// parent must have a lower sequence, and the depth must stay within the
    /// limit; nothing changes on failure. On success the event is stored
    /// with depth one more than its deepest parent, its parents leave the
    /// tips and it joins them, and the creator index, sequence tracking,
    /// frontier and counters are updated; then the tips are consolidated.
    fn insert_inner(&mut self, event: Event) -> (r: Result<Vec<EventId>, CausalGraphError>)
        requires
            old(self).wf(),
        ensures
            final(self).wf(),
            inner_failure(old(self)@, event@) matches Some(f) ==> (r matches Err(err) && error_matches(err, f, event@)
                && final(self)@ == old(self)@),
            inner_failure(old(self)@, event@) is None ==> {
                let after = inner_inserted(old(self)@, event@, new_depth(old(self)@, event@) as usize);
                &&& r matches Ok(ids) && ids@ == seq![event.id]
                &&& final(self)@ == (GraphModel { tips: final(self)@.tips, ..after })
                &&& tips_consolidated(after.events, after.tips, final(self)@.tips)
            },
    {
        let ghost e = event@;
        let ghost m = self@;
        let d1 = match self.check_parent(&event, &event.self_parent, true) {
            Ok(d) => d,
            Err(err) => {
                return Err(err);
            },
        };
        let d2 = match self.check_parent(&event, &event.other_parent, false) {
            Ok(d) => d,
            Err(err) => {
                return Err(err);
            },
        };
        let maxd = if d1 >= d2 { d1 } else { d2 };
        proof {
            if let Some(sp) = event.self_parent {
                if self@.events.contains_key(sp) && self.depths@.contains_key(sp) {
                    assert(self.depths@[sp] <= MAX_ANCESTRY_DEPTH);
                }
            }
            if let Some(op) = event.other_parent {
                if self@.events.contains_key(op) && self.depths@.contains_key(op) {
                    assert(self.depths@[op] <= MAX_ANCESTRY_DEPTH);
                }
            }
        }
        let depth = maxd + 1;
        if depth > MAX_ANCESTRY_DEPTH {
            return Err(CausalGraphError::MaxDepthExceeded(short_hex(&event.id)));
        }
        let event_id = event.id;
        let creator = event.creator;
        let ghost t0 = self@.tips;
        match event.self_parent {
            Some(sp) => {
                self.tips.remove(&sp);
            },
            None => {},
        }
        match event.other_parent {
            Some(op) => {
                self.tips.remove(&op);
            },
            None => {},
        }
        proof {
            assert(self@.tips =~= t0 - parent_set(e));
        }
        let mut ids = match self.by_creator.remove(&creator) {
            Some(v) => v,
            None => Vec::new(),
        };
        ids.push(event_id);
        self.by_creator.insert(creator, ids);
        let cur = match self.node_sequences.get(&creator) {
            Some(c) => *c,
            None => 0,
        };
        let next_seq = if cur >= event.sequence { cur } else { event.sequence };
        self.node_sequences.insert(creator, next_seq);
        self.frontier.merge(&event.vector_clock);
        self.tips.insert(event_id, ());
        if event.status == EventStatus::Finalized && self.finalized_count < usize::MAX {
            self.finalized_count = self.finalized_count + 1;
        }
        self.events.insert(event_id, event);
        if depth > self.max_depth {
            self.max_depth = depth;
        }
        self.depths.insert(event_id, depth);
        proof {
            let after = inner_inserted(m, e, depth);
            assert(self@.events =~= after.events);
            assert(self@.by_creator =~= after.by_creator);
            assert(self@.tips =~= after.tips);
            assert(self@.depths =~= after.depths);
        }
        self.consolidate_tips();
        let mut out: Vec<EventId> = Vec::new();
        out.push(event_id);
        proof {
            assert(out@ =~= seq![event_id]);
        }
        Ok(out)
    }
}


/// `x` capped at `usize::MAX`.
pub open spec fn sat_usize(x: int) -> int {
    if x <= usize::MAX {
        x
    } else {
        usize::MAX as int
    }
}

/// The number of buffered events of the creators in `ks`.
pub open spec fn buffered_sum(b: Map<NodeId, Map<u64, EventView>>, ks: Seq<NodeId>) -> int
    decreases ks.len(),
{
    if ks.len() == 0 {
        0
    } else {
        buffered_sum(b, ks.drop_last()) + buffer_of(b, ks.last()).len()
    }
}

/// The buffered events of creator `c`.
pub open spec fn buffer_of(b: Map<NodeId, Map<u64, EventView>>, c: NodeId) -> Map<u64, EventView> {
    if b.contains_key(c) {
        b[c]
    } else {
        Map::empty()
    }
}

/// The buffer with an (empty when new) entry for creator `c`.
pub open spec fn with_entry(b: Map<NodeId, Map<u64, EventView>>, c: NodeId) -> Map<NodeId, Map<u64, EventView>> {
    b.insert(c, buffer_of(b, c))
}

/// Why an event cannot be buffered, if it cannot.
pub open spec fn buffer_failure(b: Map<NodeId, Map<u64, EventView>>, e: EventView, expected: u64) -> Option<InsertFailure> {
    if e.sequence - expected > MAX_SEQUENCE_GAP {
        Some(InsertFailure::GapTooLarge { expected })
    } else if buffer_of(b, e.creator).len() >= MAX_SEQUENCE_BUFFER_PER_CREATOR && !buffer_of(
        b,
        e.creator,
    ).contains_key(e.sequence) {
        Some(InsertFailure::BufferOverflow)
    } else {
        None
    }
}

/// The consecutive buffered events from sequence `k` on, in order.
pub open spec fn run_from(b: Map<u64, EventView>, k: u64) -> Seq<EventView>
    decreases u64::MAX - k,
{
    if b.contains_key(k) {
        if k == u64::MAX {
            seq![b[k]]
        } else {
            seq![b[k]] + run_from(b.remove(k), (k + 1) as u64)
        }
    } else {
        Seq::empty()
    }
}

/// What stays buffered after taking the run from `k`.
pub open spec fn rest_from(b: Map<u64, EventView>, k: u64) -> Map<u64, EventView>
    decreases u64::MAX - k,
{
    if b.contains_key(k) {
        if k == u64::MAX {
            b.remove(k)
        } else {
            rest_from(b.remove(k), (k + 1) as u64)
        }
    } else {
        b
    }
}

/// The buffer after draining creator `c` from sequence `k`.
pub open spec fn drained_buffer(b: Map<NodeId, Map<u64, EventView>>, c: NodeId, k: u64) -> Map<NodeId, Map<u64, EventView>> {
    if !b.contains_key(c) {
        b
    } else if rest_from(b[c], k).len() == 0 {
        b.remove(c)
    } else {
        b.insert(c, rest_from(b[c], k))
    }
}

impl SequenceBuffer {
    /// Buffer `event` (expected next sequence `expected_next`). Refused
    /// when the gap is too large or the creator's buffer is full; either
    /// way the creator gets an entry.
    fn buffer_event(&mut self, event: Event, expected_next: u64) -> (r: Result<(), CausalGraphError>)
        requires
            old(self).wf(),
        ensures
            final(self).wf(),
            buffer_failure(old(self).model(), event@, expected_next) matches Some(f) ==> (r matches Err(err)
                && error_matches(err, f, event@) && final(self).model() == with_entry(old(self).model(), event.creator)),
            buffer_failure(old(self).model(), event@, expected_next) is None ==> (r is Ok && final(self).model()
                == old(self).model().insert(
                event.creator,
                buffer_of(old(self).model(), event.creator).insert(event.sequence, event@),
            )),
    {
        let ghost b0 = self.model();
        let mut creator_buf = match self.buffers.remove(&event.creator) {
            Some(cb) => cb,
            None => VecMap::new(),
        };
        proof {
            assert(creator_buf@.map_values(|e: Event| e@) =~= buffer_of(b0, event.creator));
            creator_buf.lemma_entries();
            assert(creator_buf@.map_values(|e: Event| e@).dom() =~= creator_buf@.dom());
            assert(buffer_of(b0, event.creator).len() == creator_buf@.len());
        }
        let gap = event.sequence.saturating_sub(expected_next);
        if gap > MAX_SEQUENCE_GAP {
            let creator = event.creator;
            self.buffers.insert(creator, creator_buf);
            proof {
                assert(self.model() =~= with_entry(b0, creator));
            }
            return Err(
                CausalGraphError::SequenceGapTooLarge {
                    creator,
                    expected: expected_next,
                    actual: event.sequence,
                    max_gap: MAX_SEQUENCE_GAP,
                },
            );
        }
        if creator_buf.len() >= MAX_SEQUENCE_BUFFER_PER_CREATOR && !creator_buf.contains_key(&event.sequence) {
            let creator = event.creator;
            self.buffers.insert(creator, creator_buf);
            proof {
                assert(self.model() =~= with_entry(b0, creator));
            }
            return Err(CausalGraphError::SequenceBufferOverflow { creator });
        }
        let creator = event.creator;
        let ghost ev = event@;
        let ghost before_inner = creator_buf@;
        let ghost outer = self.buffers@;
        creator_buf.insert(event.sequence, event);
        proof {
            assert(creator_buf@.map_values(|e: Event| e@) =~= buffer_of(b0, creator).insert(ev.sequence, ev));
        }
        self.buffers.insert(creator, creator_buf);
        proof {
            assert(self.buffers@ == outer.insert(creator, creator_buf));
            assert forall|c: NodeId| #[trigger] self.model().contains_key(c) implies self.model()[c] == b0.insert(creator, buffer_of(b0, creator).insert(ev.sequence, ev))[c] by {
                if c != creator {
                    assert(outer.contains_key(c));
                }
            }
            assert(self.model() =~= b0.insert(creator, buffer_of(b0, creator).insert(ev.sequence, ev)));
        }
        Ok(())
    }

    /// Take out the consecutive events of `creator` from `expected_next`
    /// on; the creator's entry goes when nothing is left in it.
    fn drain_consecutive(&mut self, creator: &NodeId, expected_next: u64) -> (r: Vec<Event>)
        requires
            old(self).wf(),
        ensures
            final(self).wf(),
            r@.map_values(|e: Event| e@) == run_from(buffer_of(old(self).model(), *creator), expected_next),
            final(self).model() == drained_buffer(old(self).model(), *creator, expected_next),
    {
        let ghost b0 = self.model();
        let mut creator_buf = match self.buffers.remove(creator) {
            Some(cb) => cb,
            None => {
                proof {
                    assert(self.model() =~= b0);
                }
                let r: Vec<Event> = Vec::new();
                proof {
                    assert(r@.map_values(|e: Event| e@) =~= Seq::<EventView>::empty());
                }
                return r;
            },
        };
        let ghost orig = buffer_of(b0, *creator);
        let mut result: Vec<Event> = Vec::new();
        let mut next = expected_next;
        let mut done = false;
        proof {
            assert(creator_buf@.map_values(|e: Event| e@) =~= orig);
            assert(result@.map_values(|e: Event| e@) =~= Seq::<EventView>::empty());
        }
        while !done
            invariant
                creator_buf.wf(),
                self.buffers.wf(),
                forall|c: NodeId| #[trigger] self.buffers@.contains_key(c) ==> self.buffers@[c].wf(),
                self.buffers@ == old(self).buffers@.remove(*creator),
                !done ==> run_from(orig, expected_next) == result@.map_values(|e: Event| e@) + run_from(
                    creator_buf@.map_values(|e: Event| e@),
                    next,
                ),
                !done ==> rest_from(orig, expected_next) == rest_from(creator_buf@.map_values(|e: Event| e@), next),
                done ==> run_from(orig, expected_next) == result@.map_values(|e: Event| e@),
                done ==> rest_from(orig, expected_next) == creator_buf@.map_values(|e: Event| e@),
            decreases (if done { 0int } else { 1int }), u64::MAX - next,
        {
            let ghost cur = creator_buf@.map_values(|e: Event| e@);
            let ghost prev = result@.map_values(|e: Event| e@);
            match creator_buf.remove(&next) {
                Some(ev) => {
                    let ghost v = ev@;
                    result.push(ev);
                    proof {
                        assert(creator_buf@.map_values(|e: Event| e@) =~= cur.remove(next));
                        assert(result@.map_values(|e: Event| e@) =~= prev.push(v));
                        assert(cur.contains_key(next));
                    }
                    if next == u64::MAX {
                        done = true;
                        proof {
                            assert(run_from(cur, next) =~= seq![cur[next]]);
                            assert(prev + seq![v] =~= prev.push(v));
                        }
                    } else {
                        next = next + 1;
                        proof {
                            let nx = (next - 1) as u64;
                            assert(run_from(cur, nx) == seq![cur[nx]] + run_from(cur.remove(nx), next));
                            assert(prev + (seq![v] + run_from(cur.remove(nx), next)) =~= prev.push(v) + run_from(cur.remove(nx), next));
                        }
                    }
                },
                None => {
                    done = true;
                    proof {
                        assert(creator_buf@.map_values(|e: Event| e@) =~= cur);
                        assert(!cur.contains_key(next));
                        assert(prev + Seq::<EventView>::empty() =~= prev);
                    }
                },
            }
        }
        proof {
            creator_buf.lemma_entries();
            assert(creator_buf@.map_values(|e: Event| e@).dom() =~= creator_buf@.dom());
        }
        if creator_buf.len() > 0 {
            self.buffers.insert(*creator, creator_buf);
            proof {
                assert(self.model() =~= drained_buffer(b0, *creator, expected_next));
            }
        } else {
            proof {
                assert(self.model() =~= drained_buffer(b0, *creator, expected_next));
            }
        }
        result
    }

    /// Number of buffered events over all creators, saturating at
    /// `usize::MAX`.
    fn total_buffered(&self) -> (r: usize)
        requires
            self.wf(),
        ensures
            exists|ks: Seq<NodeId>| #[trigger] ks.to_set() == self.model().dom() && ks.no_duplicates() && r == sat_usize(
                buffered_sum(self.model(), ks),
            ),
    {
        proof {
            self.buffers.lemma_entries();
        }
        let ghost ks = self.buffers.key_seq();
        let n = self.buffers.len();
        let mut total: usize = 0;
        let mut i: usize = 0;
        while i < n
            invariant
                self.wf(),
                n == self.buffers.entry_seq().len(),
                ks == self.buffers.key_seq(),
                i <= n,
                total == sat_usize(buffered_sum(self.model(), ks.take(i as int))),
            decreases n - i,
        {
            proof {
                self.buffers.lemma_entries();
                assert(self.buffers@.contains_key(self.buffers.entry_seq()[i as int].0));
            }
            let b = self.buffers.value_at(i);
            proof {
                let c = ks[i as int];
                assert(c == self.buffers.entry_seq()[i as int].0);
                b.lemma_entries();
                assert(b@.map_values(|e: Event| e@).dom() =~= b@.dom());
                assert(buffer_of(self.model(), c) == b@.map_values(|e: Event| e@));
                assert(ks.take(i + 1).drop_last() =~= ks.take(i as int));
                assert(ks.take(i + 1).last() == c);
            }
            let c = b.len();
            total = total.saturating_add(c);
            i = i + 1;
        }
        proof {
            assert(ks.take(n as int) =~= ks);
            assert(self.model().dom() =~= self.buffers@.dom());
            assert(ks.no_duplicates()) by {
                assert forall|a: int, b: int| 0 <= a < ks.len() && 0 <= b < ks.len() && a != b implies ks[a] != ks[b] by {
                    assert(self.buffers.entry_seq()[a].0 != self.buffers.entry_seq()[b].0);
                }
            }
        }
        total
    }

    /// Number of buffered events of `creator`.
    fn buffered_count(&self, creator: &NodeId) -> (r: usize)
        requires
            self.wf(),
        ensures
            r == buffer_of(self.model(), *creator).len(),
    {
        match self.buffers.get(creator) {
            Some(b) => {
                proof {
                    b.lemma_entries();
                    assert(b@.map_values(|e: Event| e@).dom() =~= b@.dom());
                }
                b.len()
            },
            None => 0,
        }
    }
}


/// The next sequence expected from creator `c` (saturating).
pub open spec fn expected_next(m: GraphModel, c: NodeId) -> u64 {
    if m.node_sequences.contains_key(c) {
        if m.node_sequences[c] == u64::MAX {
            u64::MAX
        } else {
            (m.node_sequences[c] + 1) as u64
        }
    } else {
        0
    }
}

/// Why `insert` refuses an event before buffering or inserting it: a live
/// duplicate, an id that does not match the content, or a sequence below the
/// creator's latest.
pub open spec fn precheck_failure(m: GraphModel, e: EventView) -> Option<InsertFailure> {
    if m.events.contains_key(e.id) {
        Some(InsertFailure::Duplicate)
    } else if !(e.payload.len() <= u64::MAX && e.id == event_hash(e)) {
        Some(InsertFailure::BadHash)
    } else if m.node_sequences.contains_key(e.creator) && e.sequence < m.node_sequences[e.creator] {
        Some(InsertFailure::StaleSequence { expected: expected_next(m, e.creator) })
    } else {
        None
    }
}

/// One structural insertion attempt of `e`, from `m1` to `m2`, extending
/// the list of inserted ids when it succeeds.
pub open spec fn insert_step(
    m1: GraphModel,
    e: EventView,
    m2: GraphModel,
    ids1: Seq<EventId>,
    ids2: Seq<EventId>,
) -> bool {
    if inner_failure(m1, e) is Some {
        m2 == m1 && ids2 == ids1
    } else {
        let after = inner_inserted(m1, e, new_depth(m1, e) as usize);
        &&& m2 == (GraphModel { tips: m2.tips, ..after })
        &&& tips_consolidated(after.events, after.tips, m2.tips)
        &&& ids2 == ids1.push(e.id)
    }
}

/// A trace of insertion attempts of `evs` in turn: `states[i]` is the graph
/// before attempting `evs[i]` and `idss[i]` the ids inserted so far.
pub open spec fn insert_trace(evs: Seq<EventView>, states: Seq<GraphModel>, idss: Seq<Seq<EventId>>) -> bool {
    &&& states.len() == evs.len() + 1
    &&& idss.len() == evs.len() + 1
    &&& forall|i: int|
        0 <= i < evs.len() ==> #[trigger] insert_step(states[i], evs[i], states[i + 1], idss[i], idss[i + 1])
}

/// After `e` went in (leading to `m1`), the buffered successors of its
/// creator are drained and inserted in order.
pub open spec fn drained_after(m1: GraphModel, e: EventView, m2: GraphModel, ids: Seq<EventId>) -> bool {
    let c = e.creator;
    if count_at(m1.node_sequences, c) == u64::MAX {
        m2 == m1 && ids == seq![e.id]
    } else {
        let k = (count_at(m1.node_sequences, c) + 1) as u64;
        exists|states: Seq<GraphModel>, idss: Seq<Seq<EventId>>|
            #[trigger] insert_trace(run_from(buffer_of(m1.buffer, c), k), states, idss) && states[0] == (GraphModel {
                buffer: drained_buffer(m1.buffer, c, k),
                ..m1
            }) && idss[0] == seq![e.id] && states.last() == m2 && idss.last() == ids
    }
}

impl CausalGraph {
    /// The insertion itself, as `insert` describes it.
    fn insert_and_drain(&mut self, event: Event) -> (r: Result<Vec<EventId>, CausalGraphError>)
        requires
            old(self).wf(),
        ensures
            final(self).wf(),
            precheck_failure(old(self)@, event@) matches Some(f) ==> (r matches Err(err) && error_matches(err, f, event@)
                && final(self)@ == old(self)@),
            precheck_failure(old(self)@, event@) is None && event.sequence > expected_next(old(self)@, event.creator) ==> {
                let b = old(self)@.buffer;
                let ex = expected_next(old(self)@, event.creator);
                &&& buffer_failure(b, event@, ex) matches Some(f) ==> (r matches Err(err) && error_matches(err, f, event@)
                    && final(self)@ == (GraphModel { buffer: with_entry(b, event.creator), ..old(self)@ }))
                &&& buffer_failure(b, event@, ex) is None ==> (r matches Ok(ids) && ids@.len() == 0 && final(self)@
                    == (GraphModel {
                    buffer: b.insert(event.creator, buffer_of(b, event.creator).insert(event.sequence, event@)),
                    ..old(self)@
                }))
            },
            precheck_failure(old(self)@, event@) is None && event.sequence <= expected_next(old(self)@, event.creator) ==> {
                &&& inner_failure(old(self)@, event@) matches Some(f) ==> (r matches Err(err) && error_matches(err, f, event@)
                    && final(self)@ == old(self)@)
                &&& inner_failure(old(self)@, event@) is None ==> (r matches Ok(ids) && exists|m1: GraphModel|
                    #[trigger] insert_step(old(self)@, event@, m1, Seq::empty(), seq![event.id]) && drained_after(
                    m1,
                    event@,
                    final(self)@,
                    ids@,
                ))
            },
    {
        let event_id = event.id;
        if self.events.contains_key(&event_id) {
            return Err(CausalGraphError::DuplicateEvent(short_hex(&event_id)));
        }
        if !event.verify_hash() {
            return Err(CausalGraphError::InvalidEvent(message_with_id("hash mismatch for ", &event_id)));
        }
        let creator = event.creator;
        let (has_existing, last_known) = match self.node_sequences.get(&creator) {
            Some(s) => (true, *s),
            None => (false, 0u64),
        };
        let expected = if has_existing { last_known.saturating_add(1) } else { 0 };
        if has_existing && event.sequence < last_known {
            return Err(CausalGraphError::InvalidSequence { creator, expected, actual: event.sequence });
        }
        if event.sequence > expected {
            let ghost m0 = self@;
            return match self.seq_buffer.buffer_event(event, expected) {
                Ok(()) => {
                    proof {
                        assert(self@ =~= (GraphModel { buffer: self@.buffer, ..m0 }));
                    }
                    Ok(Vec::new())
                },
                Err(e) => Err(e),
            };
        }
        let ghost ev = event@;
        let ghost m0 = self@;
        let mut inserted = match self.insert_inner(event) {
            Ok(ids) => ids,
            Err(e) => {
                return Err(e);
            },
        };
        let ghost m1 = self@;
        proof {
            assert(insert_step(m0, ev, m1, Seq::empty(), seq![event_id]));
        }
        let last2 = self.latest_sequence(&creator);
        if last2 == u64::MAX {
            return Ok(inserted);
        }
        let k = last2 + 1;
        let buffered = self.seq_buffer.drain_consecutive(&creator, k);
        let ghost m1d = self@;
        let ghost run = buffered@.map_values(|e: Event| e@);
        let ghost mut states: Seq<GraphModel> = seq![m1d];
        let ghost mut idss: Seq<Seq<EventId>> = seq![inserted@];
        proof {
            assert(m1d == (GraphModel { buffer: drained_buffer(m1.buffer, creator, k), ..m1 }));
        }
        let n = buffered.len();
        let mut i: usize = 0;
        while i < n
            invariant
                self.wf(),
                n == buffered@.len(),
                run == buffered@.map_values(|e: Event| e@),
                i <= n,
                insert_trace(run.take(i as int), states, idss),
                states[0] == m1d,
                idss[0] == seq![event_id],
                states.last() == self@,
                idss.last() == inserted@,
            decreases n - i,
        {
            let ghost mi = self@;
            let ghost idsi = inserted@;
            let ev_i = buffered[i].duplicate();
            let ghost evv = ev_i@;
            match self.insert_inner(ev_i) {
                Ok(ids) => {
                    let id = ids[0];
                    inserted.push(id);
                },
                Err(_) => {},
            }
            proof {
                assert(evv == run[i as int]);
                assert(insert_step(mi, evv, self@, idsi, inserted@));
                let ps = states;
                let pi = idss;
                states = states.push(self@);
                idss = idss.push(inserted@);
                assert forall|j: int| 0 <= j < i + 1 implies #[trigger] insert_step(states[j], run.take(i + 1)[j], states[j + 1], idss[j], idss[j + 1]) by {
                    if j < i {
                        assert(insert_step(ps[j], run.take(i as int)[j], ps[j + 1], pi[j], pi[j + 1]));
                    }
                }
            }
            i = i + 1;
        }
        proof {
            assert(run.take(n as int) =~= run);
            assert(insert_trace(run, states, idss));
        }
        Ok(inserted)
    }
}


impl CausalGraph {
    /// Insert an event. Refused (nothing changes) for a live duplicate, an
    /// id that does not match the content, or a sequence below the
    /// creator's latest. An event ahead of the expected next sequence is
    /// buffered (`Ok` with no ids) unless the gap is too large or the
    /// creator's buffer is full. Otherwise it goes through the structural
    /// insertion, after which the creator's buffered successors are drained
    /// and inserted in order (those that fail are discarded); the ids of
    /// all inserted events are returned, the event's own first.
    ///
    /// A sound graph stays sound when the event, and each buffered
    /// successor drained after it, goes in under an id not in use.
    pub fn insert(&mut self, event: Event) -> (r: Result<Vec<EventId>, CausalGraphError>)
        requires
            old(self).wf(),
        ensures
            final(self).wf(),
            precheck_failure(old(self)@, event@) matches Some(f) ==> (r matches Err(err) && error_matches(err, f, event@)
                && final(self)@ == old(self)@),
            precheck_failure(old(self)@, event@) is None && event.sequence > expected_next(old(self)@, event.creator) ==> {
                let b = old(self)@.buffer;
                let ex = expected_next(old(self)@, event.creator);
                &&& buffer_failure(b, event@, ex) matches Some(f) ==> (r matches Err(err) && error_matches(err, f, event@)
                    && final(self)@ == (GraphModel { buffer: with_entry(b, event.creator), ..old(self)@ }))
                &&& buffer_failure(b, event@, ex) is None ==> (r matches Ok(ids) && ids@.len() == 0 && final(self)@
                    == (GraphModel {
                    buffer: b.insert(event.creator, buffer_of(b, event.creator).insert(event.sequence, event@)),
                    ..old(self)@
                }))
            },
            precheck_failure(old(self)@, event@) is None && event.sequence <= expected_next(old(self)@, event.creator) ==> {
                &&& inner_failure(old(self)@, event@) matches Some(f) ==> (r matches Err(err) && error_matches(err, f, event@)
                    && final(self)@ == old(self)@)
                &&& inner_failure(old(self)@, event@) is None ==> (r matches Ok(ids) && exists|m1: GraphModel|
                    #[trigger] insert_step(old(self)@, event@, m1, Seq::empty(), seq![event.id]) && drained_after(
                    m1,
                    event@,
                    final(self)@,
                    ids@,
                ))
            },            graph_sound(old(self)@) && fresh_for(old(self)@, event@) && insert_drain_fresh(old(self)@, event@)
                ==> graph_sound(final(self)@),
    {
        let ghost m0 = self@;
        let ghost e = event@;
        let r = self.insert_and_drain(event);
        proof {
            if graph_sound(m0) && fresh_for(m0, e) && insert_drain_fresh(m0, e) {
                if precheck_failure(m0, e) is Some || inner_failure(m0, e) is Some {
                    if e.sequence > expected_next(m0, e.creator) && precheck_failure(m0, e) is None {
                        lemma_same_graph_sound(m0, self@);
                    }
                } else if e.sequence > expected_next(m0, e.creator) {
                    lemma_same_graph_sound(m0, self@);
                } else {
                    let ids = r->Ok_0;
                    let m1 = choose|m1: GraphModel|
                        #[trigger] insert_step(m0, e, m1, Seq::empty(), seq![e.id]) && drained_after(m1, e, self@, ids@);
                    lemma_insert_keeps_sound(m0, e, m1, self@, ids@);
                }
            }
        }
        r
    }
}

/// `a` is a parent of the live event `x`.
pub open spec fn parent_edge(m: GraphModel, x: EventId, a: EventId) -> bool {
    m.events.contains_key(x) && parent_set(m.events[x]).contains(a)
}

/// `p` follows parent edges through live events.
pub open spec fn is_parent_path(m: GraphModel, p: Seq<EventId>) -> bool {
    &&& p.len() >= 2
    &&& forall|i: int| 0 <= i < p.len() - 1 ==> #[trigger] parent_edge(m, p[i], p[i + 1])
}

/// `a` is reached from `d` by following one or more parent edges.
pub open spec fn is_ancestor(m: GraphModel, d: EventId, a: EventId) -> bool {
    exists|p: Seq<EventId>| #[trigger] is_parent_path(m, p) && p[0] == d && p.last() == a
}

/// A set closed under parents (from `s` into `t`) holds every node after
/// the first on a path that starts in `s`.
pub proof fn lemma_path_in_closure(m: GraphModel, p: Seq<EventId>, s: Set<EventId>, t: Set<EventId>, i: int)
    requires
        is_parent_path(m, p),
        s.contains(p[0]),
        t.subset_of(s),
        forall|x: EventId, y: EventId| #[trigger] s.contains(x) && #[trigger] parent_edge(m, x, y) ==> t.contains(y),
        1 <= i < p.len(),
    ensures
        t.contains(p[i]),
    decreases i,
{
    let j = i - 1;
    assert(parent_edge(m, p[j], p[j + 1]));
    if i > 1 {
        lemma_path_in_closure(m, p, s, t, i - 1);
    }
}

/// Extending a path to `x` by one parent edge.
pub proof fn lemma_ancestor_step(m: GraphModel, d: EventId, x: EventId, y: EventId)
    requires
        x == d || is_ancestor(m, d, x),
        parent_edge(m, x, y),
    ensures
        is_ancestor(m, d, y),
{
    if x == d {
        let p = seq![d, y];
        assert(parent_edge(m, p[0], p[1]));
        assert(is_parent_path(m, p));
    } else {
        let p = choose|p: Seq<EventId>| #[trigger] is_parent_path(m, p) && p[0] == d && p.last() == x;
        let q = p.push(y);
        assert forall|i: int| 0 <= i < q.len() - 1 implies #[trigger] parent_edge(m, q[i], q[i + 1]) by {
            if i < p.len() - 1 {
                assert(parent_edge(m, p[i], p[i + 1]));
            }
        }
        assert(is_parent_path(m, q));
    }
}

/// Push the parents of `e` into the set `seen` and the queue, skipping
/// those already seen; reports whether one of them is `target`.
fn enqueue_parents(
    e: &Event,
    seen: &mut VecMap<EventId, ()>,
    queue: &mut Vec<EventId>,
    target: &Option<EventId>,
) -> (found: bool)
    requires
        old(seen).wf(),
    ensures
        final(seen).wf(),
        found == (*target matches Some(t) && parent_set(e@).contains(t)),
        final(seen)@.dom() == old(seen)@.dom() + parent_set(e@),
        exists|extra: Seq<EventId>| #[trigger] final(queue)@ == old(queue)@ + extra && extra.no_duplicates()
            && extra.to_set() == parent_set(e@) - old(seen)@.dom(),
{
    let mut found = false;
    let ghost q0 = queue@;
    let ghost s0 = seen@.dom();
    let ghost mut extra: Seq<EventId> = Seq::empty();
    match e.self_parent {
        Some(p) => {
            match target {
                Some(t) => {
                    if id_eq(&p, t) {
                        found = true;
                    }
                },
                None => {},
            }
            if !seen.contains_key(&p) {
                seen.insert(p, ());
                queue.push(p);
                proof {
                    extra = extra.push(p);
                }
            }
        },
        None => {},
    }
    let ghost sp_set = match e.self_parent {
        Some(p) => set![p],
        None => Set::<EventId>::empty(),
    };
    proof {
        assert(queue@ =~= q0 + extra);
        assert(extra.no_duplicates());
        assert(seen@.dom() =~= s0 + sp_set);
        assert forall|x: EventId| extra.contains(x) <==> (sp_set - s0).contains(x) by {
            if extra.contains(x) {
                let i = choose|i: int| 0 <= i < extra.len() && extra[i] == x;
            }
            if (sp_set - s0).contains(x) {
                assert(extra[0] == x);
            }
        }
    }
    let ghost extra1 = extra;
    match e.other_parent {
        Some(p) => {
            match target {
                Some(t) => {
                    if id_eq(&p, t) {
                        found = true;
                    }
                },
                None => {},
            }
            if !seen.contains_key(&p) {
                proof {
                    assert(!extra1.contains(p));
                }
                seen.insert(p, ());
                queue.push(p);
                proof {
                    extra = extra.push(p);
                }
            }
        },
        None => {},
    }
    proof {
        assert(seen@.dom() =~= s0 + parent_set(e@));
        assert(queue@ =~= q0 + extra);
        assert(extra.no_duplicates());
        assert forall|x: EventId| extra.contains(x) <==> (parent_set(e@) - s0).contains(x) by {
            if extra.contains(x) {
                let i = choose|i: int| 0 <= i < extra.len() && extra[i] == x;
                if i < extra1.len() {
                    assert(extra1[i] == x);
                }
            }
            if (parent_set(e@) - s0).contains(x) {
                if (sp_set - s0).contains(x) {
                    assert(extra1.contains(x));
                    let i = choose|i: int| 0 <= i < extra1.len() && extra1[i] == x;
                    assert(extra[i] == x);
                } else {
                    assert(extra[extra.len() - 1] == x);
                }
            }
        }
        assert(extra.to_set() =~= parent_set(e@) - s0);
    }
    found
}


/// Appending fresh distinct ids to a duplicate-free listing of a set.
pub proof fn lemma_append_fresh(q0: Seq<EventId>, extra: Seq<EventId>, v0: Set<EventId>, add: Set<EventId>)
    requires
        q0.no_duplicates(),
        q0.to_set() == v0,
        extra.no_duplicates(),
        extra.to_set() == add - v0,
    ensures
        (q0 + extra).no_duplicates(),
        (q0 + extra).to_set() == v0 + add,
{
    let q = q0 + extra;
    assert forall|i: int, j: int| 0 <= i < q.len() && 0 <= j < q.len() && i != j implies q[i] != q[j] by {
        if i >= q0.len() && j < q0.len() {
            assert(extra.to_set().contains(extra[i - q0.len()]));
            assert(q0.to_set().contains(q0[j]));
        }
        if j >= q0.len() && i < q0.len() {
            assert(extra.to_set().contains(extra[j - q0.len()]));
            assert(q0.to_set().contains(q0[i]));
        }
    }
    assert forall|x: EventId| q.contains(x) <==> (v0 + add).contains(x) by {
        if q.contains(x) {
            let i = choose|i: int| 0 <= i < q.len() && q[i] == x;
            if i >= q0.len() {
                assert(extra[i - q0.len()] == x);
                assert(extra.to_set().contains(x));
            } else {
                assert(q0[i] == x);
                assert(q0.to_set().contains(x));
            }
        }
        if (v0 + add).contains(x) {
            if v0.contains(x) {
                assert(q0.to_set().contains(x));
                let i = choose|i: int| 0 <= i < q0.len() && q0[i] == x;
                assert(q[i] == x);
            } else {
                assert(extra.to_set().contains(x));
                let i = choose|i: int| 0 <= i < extra.len() && extra[i] == x;
                assert(q[q0.len() + i] == x);
            }
        }
    }
    assert(q.to_set() =~= v0 + add);
}

/// What an ancestry traversal from `d` may fail with: a pruned event on the
/// way, or the traversal bounds.
pub open spec fn traversal_error(m: GraphModel, d: EventId, err: CausalGraphError) -> bool {
    ||| err matches CausalGraphError::EventPruned(s) && exists|x: EventId|
        #[trigger] m.pruned.contains_key(x) && !m.events.contains_key(x) && (x == d || is_ancestor(m, d, x))
            && s@ == short_id(x)
    ||| err matches CausalGraphError::MaxDepthExceeded(s) && s@ == short_id(d)
}

/// The ancestors of `d`.
pub open spec fn ancestor_set(m: GraphModel, d: EventId) -> Set<EventId> {
    Set::new(|x: EventId| is_ancestor(m, d, x))
}

/// No pruned, no longer live event is `d` or one of its ancestors.
pub open spec fn no_pruned_reachable(m: GraphModel, d: EventId) -> bool {
    forall|x: EventId| #![trigger m.pruned.contains_key(x)] (x == d || is_ancestor(m, d, x)) && m.pruned.contains_key(x)
        ==> m.events.contains_key(x)
}

/// `d` has fewer ancestors than the traversal visits at most.
pub open spec fn within_traversal_bounds(m: GraphModel, d: EventId) -> bool {
    ancestor_set(m, d).finite() && ancestor_set(m, d).len() < MAX_ANCESTRY_VISITED
}

/// A set of `d` and ancestors of `d` is no larger than the traversal bound
/// when `d` is within the bounds.
pub proof fn lemma_visited_bound(m: GraphModel, d: EventId, vs: Set<EventId>)
    requires
        within_traversal_bounds(m, d),
        forall|x: EventId| #[trigger] vs.contains(x) ==> x == d || is_ancestor(m, d, x),
    ensures
        vs.finite(),
        vs.len() <= MAX_ANCESTRY_VISITED,
{
    let a = ancestor_set(m, d).insert(d);
    assert(vs.subset_of(a));
    vstd::set_lib::lemma_len_subset(vs, a);
}

impl CausalGraph {
    /// Whether `ancestor` is reached from `descendant` by following parent
    /// links (breadth first, through live events; an event is not its own
    /// ancestor here). Fails with `EventPruned` when the walk meets a pruned
    /// event and with `MaxDepthExceeded` past the traversal bounds.
    pub fn is_ancestor_of(&self, descendant: &EventId, ancestor: &EventId) -> (r: Result<bool, CausalGraphError>)
        requires
            self.wf(),
        ensures
            *descendant == *ancestor ==> r == Ok::<bool, CausalGraphError>(false),
            *descendant != *ancestor ==> (r matches Ok(b) ==> b == is_ancestor(self@, *descendant, *ancestor)),
            r matches Err(err) ==> traversal_error(self@, *descendant, err),
            no_pruned_reachable(self@, *descendant) && within_traversal_bounds(self@, *descendant) ==> r is Ok,
            (r matches Err(err) && err is MaxDepthExceeded) ==> !within_traversal_bounds(self@, *descendant),
    {
        if id_eq(descendant, ancestor) {
            return Ok(false);
        }
        let ghost m = self@;
        let ghost d = *descendant;
        let ghost a = *ancestor;
        let mut visited: VecMap<EventId, ()> = VecMap::new();
        visited.insert(*descendant, ());
        let mut queue: Vec<EventId> = Vec::new();
        queue.push(*descendant);
        let target = Some(*ancestor);
        let mut head: usize = 0;
        let mut depth: usize = 0;
        proof {
            assert(queue@ =~= seq![d]);
            assert forall|x: EventId| queue@.contains(x) <==> x == d by {
                if queue@.contains(x) {
                    let i = choose|i: int| 0 <= i < queue@.len() && queue@[i] == x;
                }
                if x == d {
                    assert(queue@[0] == d);
                }
            }
            assert(queue@.to_set() =~= visited@.dom());
        }
        while head < queue.len()
            invariant
                self.wf(),
                self@ == m,
                visited.wf(),
                d == *descendant,
                a == *ancestor,
                d != a,
                target == Some(a),
                head <= queue@.len(),
                depth == head,
                depth <= MAX_ANCESTRY_DEPTH,
                queue@.len() >= 1,
                queue@[0] == d,
                queue@.no_duplicates(),
                queue@.to_set() == visited@.dom(),
                forall|x: EventId| #[trigger] visited@.contains_key(x) ==> x == d || is_ancestor(m, d, x),
                !visited@.contains_key(a),
                forall|j: int, y: EventId| 0 <= j < head && #[trigger] parent_edge(m, queue@[j], y) ==> visited@.contains_key(y),
            decreases MAX_ANCESTRY_DEPTH - depth,
        {
            let current = queue[head];
            head = head + 1;
            depth = depth + 1;
            proof {
                if within_traversal_bounds(m, d) {
                    lemma_visited_bound(m, d, visited@.dom());
                    queue@.unique_seq_to_set();
                }
            }
            if depth > MAX_ANCESTRY_DEPTH {
                return Err(CausalGraphError::MaxDepthExceeded(short_hex(descendant)));
            }
            if visited.len() > MAX_ANCESTRY_VISITED {
                return Err(CausalGraphError::MaxDepthExceeded(short_hex(descendant)));
            }
            proof {
                assert(queue@.contains(current));
                assert(visited@.contains_key(current));
            }
            match self.events.get(&current) {
                Some(ev) => {
                    let ghost q0 = queue@;
                    let ghost v0 = visited@.dom();
                    let found = enqueue_parents(ev, &mut visited, &mut queue, &target);
                    proof {
                        assert(ev@ == m.events[current]);
                    }
                    if found {
                        proof {
                            assert(parent_edge(m, current, a));
                            lemma_ancestor_step(m, d, current, a);
                        }
                        return Ok(true);
                    }
                    proof {
                        let extra = choose|extra: Seq<EventId>| #[trigger] queue@ == q0 + extra && extra.no_duplicates()
                            && extra.to_set() == parent_set(ev@) - v0;
                        assert forall|x: EventId| #[trigger] visited@.contains_key(x) implies x == d || is_ancestor(m, d, x) by {
                            if !v0.contains(x) {
                                assert(parent_edge(m, current, x));
                                lemma_ancestor_step(m, d, current, x);
                            }
                        }
                        lemma_append_fresh(q0, extra, v0, parent_set(ev@));
                        assert(visited@.dom() == v0 + parent_set(ev@));
                        assert(queue@.to_set() =~= visited@.dom());
                        assert forall|j: int, y: EventId| 0 <= j < head && #[trigger] parent_edge(m, queue@[j], y) implies visited@.contains_key(y) by {
                            assert(queue@[j] == q0[j]);
                        }
                    }
                },
                None => {
                    if self.pruned_events.contains_key(&current) {
                        let msg = short_hex(&current);
                        proof {
                            assert(current == d || is_ancestor(m, d, current));
                            assert(m.pruned.contains_key(current) && !m.events.contains_key(current));
                        }
                        return Err(CausalGraphError::EventPruned(msg));
                    }
                    proof {
                        assert forall|j: int, y: EventId| 0 <= j < head && #[trigger] parent_edge(m, queue@[j], y) implies visited@.contains_key(y) by {
                            if j == head - 1 {
                                assert(!m.events.contains_key(current));
                            }
                        }
                    }
                },
            }
        }
        proof {
            if is_ancestor(m, d, a) {
                let p = choose|p: Seq<EventId>| #[trigger] is_parent_path(m, p) && p[0] == d && p.last() == a;
                let vs = visited@.dom();
                assert forall|x: EventId, y: EventId| #[trigger] vs.contains(x) && #[trigger] parent_edge(m, x, y) implies vs.contains(y) by {
                    assert(queue@.contains(x));
                    let j = choose|j: int| 0 <= j < queue@.len() && queue@[j] == x;
                    assert(parent_edge(m, queue@[j], y));
                }
                assert(vs.contains(p[0]));
                lemma_path_in_closure(m, p, vs, vs, p.len() - 1);
            }
        }
        Ok(false)
    }
}


impl CausalGraph {
    /// All ancestors of the event, each once (breadth first through live
    /// events). Fails with `EventPruned` when the walk meets a pruned event
    /// and with `MaxDepthExceeded` past the traversal bounds.
    pub fn get_ancestors(&self, event_id: &EventId) -> (r: Result<Vec<EventId>, CausalGraphError>)
        requires
            self.wf(),
        ensures
            r matches Ok(v) ==> v@.no_duplicates() && forall|x: EventId| #[trigger] v@.contains(x) <==> is_ancestor(self@, *event_id, x),
            r matches Err(err) ==> traversal_error(self@, *event_id, err),
            no_pruned_reachable(self@, *event_id) && within_traversal_bounds(self@, *event_id) ==> r is Ok,
            (r matches Err(err) && err is MaxDepthExceeded) ==> !within_traversal_bounds(self@, *event_id),
    {
        let ghost m = self@;
        let ghost d = *event_id;
        let mut anc: VecMap<EventId, ()> = VecMap::new();
        let mut queue: Vec<EventId> = Vec::new();
        queue.push(*event_id);
        let none: Option<EventId> = None;
        let mut head: usize = 0;
        let mut depth: usize = 0;
        proof {
            assert(queue@.subrange(1, queue@.len() as int) =~= Seq::<EventId>::empty());
            assert(queue@.subrange(1, queue@.len() as int).to_set() =~= anc@.dom());
        }
        while head < queue.len()
            invariant
                self.wf(),
                self@ == m,
                anc.wf(),
                d == *event_id,
                none is None,
                head <= queue@.len(),
                depth == head,
                depth <= MAX_ANCESTRY_DEPTH,
                queue@.len() >= 1,
                queue@[0] == d,
                queue@.subrange(1, queue@.len() as int).no_duplicates(),
                queue@.subrange(1, queue@.len() as int).to_set() == anc@.dom(),
                forall|x: EventId| #[trigger] anc@.contains_key(x) ==> is_ancestor(m, d, x),
                forall|j: int, y: EventId| 0 <= j < head && #[trigger] parent_edge(m, queue@[j], y) ==> anc@.contains_key(y),
            decreases MAX_ANCESTRY_DEPTH - depth,
        {
            let current = queue[head];
            head = head + 1;
            depth = depth + 1;
            proof {
                if within_traversal_bounds(m, d) {
                    lemma_visited_bound(m, d, anc@.dom());
                    queue@.subrange(1, queue@.len() as int).unique_seq_to_set();
                }
            }
            if depth > MAX_ANCESTRY_DEPTH {
                return Err(CausalGraphError::MaxDepthExceeded(short_hex(event_id)));
            }
            if anc.len() > MAX_ANCESTRY_VISITED {
                return Err(CausalGraphError::MaxDepthExceeded(short_hex(event_id)));
            }
            proof {
                if head - 1 > 0 {
                    let t = queue@.subrange(1, queue@.len() as int);
                    assert(t[head - 2] == current);
                    assert(t.contains(current));
                    assert(anc@.contains_key(current));
                }
            }
            match self.events.get(&current) {
                Some(ev) => {
                    let ghost q0 = queue@;
                    let ghost v0 = anc@.dom();
                    let _ = enqueue_parents(ev, &mut anc, &mut queue, &none);
                    proof {
                        assert(ev@ == m.events[current]);
                        let extra = choose|extra: Seq<EventId>| #[trigger] queue@ == q0 + extra && extra.no_duplicates()
                            && extra.to_set() == parent_set(ev@) - v0;
                        assert forall|x: EventId| #[trigger] anc@.contains_key(x) implies is_ancestor(m, d, x) by {
                            if !v0.contains(x) {
                                assert(parent_edge(m, current, x));
                                lemma_ancestor_step(m, d, current, x);
                            }
                        }
                        let t0 = q0.subrange(1, q0.len() as int);
                        lemma_append_fresh(t0, extra, v0, parent_set(ev@));
                        assert(queue@.subrange(1, queue@.len() as int) =~= t0 + extra);
                        assert forall|j: int, y: EventId| 0 <= j < head && #[trigger] parent_edge(m, queue@[j], y) implies anc@.contains_key(y) by {
                            assert(queue@[j] == q0[j]);
                        }
                    }
                },
                None => {
                    if self.pruned_events.contains_key(&current) {
                        let msg = short_hex(&current);
                        proof {
                            assert(current == d || is_ancestor(m, d, current));
                            assert(m.pruned.contains_key(current) && !m.events.contains_key(current));
                        }
                        return Err(CausalGraphError::EventPruned(msg));
                    }
                    proof {
                        assert forall|j: int, y: EventId| 0 <= j < head && #[trigger] parent_edge(m, queue@[j], y) implies anc@.contains_key(y) by {
                            if j == head - 1 {
                                assert(!m.events.contains_key(current));
                            }
                        }
                    }
                },
            }
        }
        let n = queue.len();
        let mut out: Vec<EventId> = Vec::new();
        let mut i: usize = 1;
        while i < n
            invariant
                n == queue@.len(),
                1 <= i <= n,
                out@ == queue@.subrange(1, i as int),
            decreases n - i,
        {
            out.push(queue[i]);
            i = i + 1;
            proof {
                assert(out@ =~= queue@.subrange(1, i as int));
            }
        }
        proof {
            let t = queue@.subrange(1, queue@.len() as int);
            assert(out@ =~= t);
            let sset = anc@.dom().insert(d);
            let tset = anc@.dom();
            assert forall|x: EventId, y: EventId| #[trigger] sset.contains(x) && #[trigger] parent_edge(m, x, y) implies tset.contains(y) by {
                if x == d {
                    assert(parent_edge(m, queue@[0], y));
                } else {
                    assert(t.to_set().contains(x));
                    let j = choose|j: int| 0 <= j < t.len() && t[j] == x;
                    assert(queue@[j + 1] == x);
                    assert(parent_edge(m, queue@[j + 1], y));
                }
            }
            assert forall|x: EventId| #[trigger] out@.contains(x) <==> is_ancestor(m, d, x) by {
                if out@.contains(x) {
                    assert(t.to_set().contains(x));
                }
                if is_ancestor(m, d, x) {
                    let p = choose|p: Seq<EventId>| #[trigger] is_parent_path(m, p) && p[0] == d && p.last() == x;
                    lemma_path_in_closure(m, p, sset, tset, p.len() - 1);
                    assert(t.to_set().contains(x));
                }
            }
        }
        Ok(out)
    }
}


/// Whether the live event `id` is in the scope of a topological ordering
/// that starts from `start` (all events, or those after or concurrent with it).
pub open spec fn in_scope(m: GraphModel, start: Option<Map<NodeId, u64>>, id: EventId) -> bool {
    &&& m.events.contains_key(id)
    &&& match start {
        None => true,
        Some(vc) => vc_happened_before(vc, m.events[id].clock) || vc_concurrent(m.events[id].clock, vc),
    }
}

/// Scope law: from a start clock, a live event is in scope exactly when
/// some node's count in its clock exceeds that node's count in the start
/// clock (its clock is after the start clock or concurrent with it); an
/// event whose clock is at or below the start clock is left out.
pub proof fn lemma_scope_is_not_below_start(m: GraphModel, vc: Map<NodeId, u64>, id: EventId)
    ensures
        in_scope(m, Some(vc), id) <==> m.events.contains_key(id) && exists|n: NodeId|
            #[trigger] count_at(m.events[id].clock, n) > count_at(vc, n),
        m.events.contains_key(id) && (vc_happened_before(vc, m.events[id].clock) || vc_concurrent(m.events[id].clock, vc))
            ==> in_scope(m, Some(vc), id),
        in_scope(m, None, id) <==> m.events.contains_key(id),
{
}

/// Scope law for orderings: every live event whose clock is not at or
/// below the start clock appears in a topological order from that clock,
/// and no other event does.
pub proof fn lemma_topological_order_covers_scope(m: GraphModel, vc: Map<NodeId, u64>, v: Seq<EventId>, id: EventId)
    requires
        is_topological(m, Some(vc), v),
    ensures
        v.contains(id) <==> m.events.contains_key(id) && exists|n: NodeId|
            #[trigger] count_at(m.events[id].clock, n) > count_at(vc, n),
{
    lemma_scope_is_not_below_start(m, vc, id);
}

/// `p` is a parent of `id` that was pruned and is no longer live.
pub open spec fn pruned_parent(m: GraphModel, id: EventId, p: EventId) -> bool {
    &&& m.events.contains_key(id)
    &&& parent_set(m.events[id]).contains(p)
    &&& !m.events.contains_key(p)
    &&& m.pruned.contains_key(p)
}

/// `v` lists the events in scope, each once, every parent in scope before
/// its child.
pub open spec fn is_topological(m: GraphModel, start: Option<Map<NodeId, u64>>, v: Seq<EventId>) -> bool {
    &&& v.no_duplicates()
    &&& forall|x: EventId| #[trigger] v.contains(x) <==> in_scope(m, start, x)
    &&& forall|i: int, p: EventId|
        0 <= i < v.len() && #[trigger] parent_set(m.events[v[i]]).contains(p) && in_scope(m, start, p)
            ==> exists|j: int| 0 <= j < i && v[j] == p
}

/// The view of an optional clock.
pub open spec fn opt_clock(c: Option<&VectorClock>) -> Option<Map<NodeId, u64>> {
    match c {
        Some(vc) => Some(vc@),
        None => None,
    }
}

/// A one-element sequence lists exactly its element, once.
pub proof fn lemma_singleton_seq(x: EventId)
    ensures
        seq![x].no_duplicates(),
        seq![x].to_set() == set![x],
{
    assert forall|y: EventId| seq![x].contains(y) <==> y == x by {
        if y == x {
            assert(seq![x][0] == x);
        }
    }
    assert(seq![x].to_set() =~= set![x]);
}

/// Every member of `r` has a parent (a live parent edge) in `r`.
#[verifier::opaque]
pub open spec fn parent_closed_below(m: GraphModel, r: Set<EventId>) -> bool {
    forall|x: EventId| #[trigger] r.contains(x) ==> exists|p: EventId| parent_edge(m, x, p) && r.contains(p)
}

/// A walk of `n` parent steps inside `r` from `x0`.
spec fn parent_walk(m: GraphModel, r: Set<EventId>, x0: EventId, n: nat) -> Seq<EventId>
    decreases n,
{
    if n == 0 {
        seq![x0]
    } else {
        let w = parent_walk(m, r, x0, (n - 1) as nat);
        w.push(choose|p: EventId| parent_edge(m, w.last(), p) && r.contains(p))
    }
}

proof fn lemma_parent_walk(m: GraphModel, r: Set<EventId>, x0: EventId, n: nat)
    requires
        parent_closed_below(m, r),
        r.contains(x0),
    ensures
        parent_walk(m, r, x0, n).len() == n + 1,
        parent_walk(m, r, x0, n)[0] == x0,
        forall|i: int| 0 <= i <= n ==> r.contains(#[trigger] parent_walk(m, r, x0, n)[i]),
        forall|i: int| 0 <= i < n ==> #[trigger] parent_edge(m, parent_walk(m, r, x0, n)[i], parent_walk(m, r, x0, n)[i + 1]),
    decreases n,
{
    reveal(parent_closed_below);
    if n > 0 {
        lemma_parent_walk(m, r, x0, (n - 1) as nat);
        let w = parent_walk(m, r, x0, (n - 1) as nat);
        assert(r.contains(w.last())) by {
            assert(w.last() == w[n - 1]);
        }
        let q = choose|p: EventId| parent_edge(m, w.last(), p) && r.contains(p);
        assert(parent_edge(m, w.last(), q) && r.contains(q));
        let w2 = parent_walk(m, r, x0, n);
        assert(w2 == w.push(q));
        assert forall|i: int| 0 <= i < n implies #[trigger] parent_edge(m, w2[i], w2[i + 1]) by {
            if i < n - 1 {
                assert(w2[i] == w[i] && w2[i + 1] == w[i + 1]);
            } else {
                assert(w2[i] == w.last());
            }
        }
    }
}

/// Cycle law: in a finite nonempty set where every member has a parent in
/// the set, some member is its own ancestor.
pub proof fn lemma_closed_set_has_cycle(m: GraphModel, r: Set<EventId>, x0: EventId)
    requires
        r.finite(),
        r.contains(x0),
        parent_closed_below(m, r),
    ensures
        exists|y: EventId| #[trigger] r.contains(y) && is_ancestor(m, y, y),
{
    let n = r.len();
    lemma_parent_walk(m, r, x0, n);
    let w = parent_walk(m, r, x0, n);
    if w.no_duplicates() {
        w.unique_seq_to_set();
        assert(w.to_set().subset_of(r)) by {
            assert forall|y: EventId| w.to_set().contains(y) implies r.contains(y) by {
                let i = choose|i: int| 0 <= i < w.len() && w[i] == y;
                assert(r.contains(w[i]));
            }
        }
        vstd::set_lib::lemma_len_subset(w.to_set(), r);
        assert(false);
    } else {
        let (i, j) = choose|i: int, j: int| 0 <= i < w.len() && 0 <= j < w.len() && i != j && w[i] == w[j];
        let (a, b) = if i < j { (i, j) } else { (j, i) };
        let p = w.subrange(a, b + 1);
        assert(is_parent_path(m, p)) by {
            assert forall|k: int| 0 <= k < p.len() - 1 implies #[trigger] parent_edge(m, p[k], p[k + 1]) by {
                assert(p[k] == w[a + k] && p[k + 1] == w[a + k + 1]);
            }
        }
        assert(p[0] == w[a] && p.last() == w[b]);
        assert(is_ancestor(m, w[a], w[a]));
        assert(r.contains(w[a]));
    }
}

/// `x` is in scope, not yet placed, and each of its parents in scope is
/// placed.
pub open spec fn ready_in(m: GraphModel, st: Option<Map<NodeId, u64>>, placed: Set<EventId>, x: EventId) -> bool {
    &&& in_scope(m, st, x)
    &&& !placed.contains(x)
    &&& forall|p: EventId| #[trigger] parent_set(m.events[x]).contains(p) && in_scope(m, st, p) ==> placed.contains(p)
}

/// Each event of `v` has the largest id among the events ready once those
/// before it are placed.
pub open spec fn largest_ready_first(m: GraphModel, st: Option<Map<NodeId, u64>>, v: Seq<EventId>) -> bool {
    forall|i: int, y: EventId|
        0 <= i < v.len() && #[trigger] ready_in(m, st, v.take(i).to_set(), y) ==> y == v[i] || crate::ids::id_lt(y, v[i])
}

/// `x` has a parent in `scope` that is not in `emitted`.
#[verifier::opaque]
spec fn has_pending_parent(m: GraphModel, scope: Set<EventId>, emitted: Set<EventId>, x: EventId) -> bool {
    exists|p: EventId| parent_edge(m, x, p) && scope.contains(p) && !emitted.contains(p)
}

proof fn lemma_pending_step(m: GraphModel, scope: Set<EventId>, emitted: Set<EventId>, x: EventId)
    requires
        has_pending_parent(m, scope, emitted, x),
    ensures
        exists|p: EventId| parent_edge(m, x, p) && (scope - emitted).contains(p),
{
    reveal(has_pending_parent);
    let p = choose|p: EventId| parent_edge(m, x, p) && scope.contains(p) && !emitted.contains(p);
    assert((scope - emitted).contains(p));
}

/// When every event of `scope` not in `emitted` has a parent in the same
/// position, and one such event exists, some event of `scope` is its own
/// ancestor.
proof fn lemma_stuck_means_cycle(m: GraphModel, scope: Set<EventId>, emitted: Set<EventId>, x0: EventId)
    requires
        scope.finite(),
        scope.contains(x0),
        !emitted.contains(x0),
        forall|x: EventId| scope.contains(x) && !emitted.contains(x) ==> #[trigger] has_pending_parent(m, scope, emitted, x),
    ensures
        exists|y: EventId| #[trigger] scope.contains(y) && is_ancestor(m, y, y),
{
    let rest = scope - emitted;
    assert(parent_closed_below(m, rest)) by {
        reveal(parent_closed_below);
        assert forall|x: EventId| #[trigger] rest.contains(x) implies exists|p: EventId| parent_edge(m, x, p) && rest.contains(p) by {
            assert(scope.contains(x) && !emitted.contains(x));
            assert(has_pending_parent(m, scope, emitted, x));
            lemma_pending_step(m, scope, emitted, x);
        }
    }
    lemma_closed_set_has_cycle(m, rest, x0);
    let y = choose|y: EventId| #[trigger] rest.contains(y) && is_ancestor(m, y, y);
    assert(scope.contains(y));
}

/// Whether an optional parent is settled: absent, out of `scope`, or
/// already emitted.
fn parent_settled(p: &Option<EventId>, scope: &VecMap<EventId, ()>, emitted: &VecMap<EventId, ()>) -> (r: bool)
    requires
        scope.wf(),
        emitted.wf(),
    ensures
        r == (match *p {
            None => true,
            Some(x) => !scope@.contains_key(x) || emitted@.contains_key(x),
        }),
{
    match p {
        None => true,
        Some(x) => !scope.contains_key(x) || emitted.contains_key(x),
    }
}

impl CausalGraph {
    /// The events in scope (all, or those after or concurrent with
    /// `start_from`) in topological order: parents first, and among the
    /// events whose parents are all placed, the largest id next. Fails with
    /// `EventPruned` when an event in scope has a pruned parent, and with
    /// `CycleDetected` when not every event in scope could be placed.
    pub fn topological_order(&self, start_from: Option<&VectorClock>) -> (r: Result<Vec<EventId>, CausalGraphError>)
        requires
            self.wf(),
        ensures
            r matches Ok(v) ==> is_topological(self@, opt_clock(start_from), v@) && largest_ready_first(
                self@,
                opt_clock(start_from),
                v@,
            ),
            r matches Err(err) ==> (err matches CausalGraphError::EventPruned(s) && exists|id: EventId, p: EventId|
                #[trigger] pruned_parent(self@, id, p) && in_scope(self@, opt_clock(start_from), id) && s@ == short_id(p))
                || err is CycleDetected,
            (forall|id: EventId, p: EventId| #[trigger] pruned_parent(self@, id, p) ==> !in_scope(self@, opt_clock(start_from), id))
                ==> !(r matches Err(err) && err is EventPruned),
            (r matches Err(err) && err is CycleDetected) ==> exists|y: EventId| #[trigger] in_scope(self@, opt_clock(start_from), y)
                && is_ancestor(self@, y, y),
            (exists|id: EventId, p: EventId| #[trigger] pruned_parent(self@, id, p) && in_scope(self@, opt_clock(start_from), id))
                ==> (r matches Err(err) && err is EventPruned),
    {
        let ghost m = self@;
        let ghost st = opt_clock(start_from);
        let (rel, scope) = self.scope_listing(start_from);
        proof {
            assert forall|x: EventId| #[trigger] rel@.contains(x) implies in_scope(m, st, x) by {
                assert(rel@.to_set().contains(x));
                assert(scope@.contains_key(x));
            }
        }
        let nr = rel.len();
        let mut k: usize = 0;
        while k < nr
            invariant
                self.wf(),
                self@ == m,
                scope.wf(),
                st == opt_clock(start_from),
                rel@.to_set() == scope@.dom(),
                forall|x: EventId| #[trigger] scope@.contains_key(x) <==> in_scope(m, st, x),
                nr == rel@.len(),
                k <= nr,
                forall|x: EventId| #[trigger] rel@.contains(x) ==> in_scope(m, st, x),
                forall|j: int, p: EventId| 0 <= j < k && #[trigger] pruned_parent(m, rel@[j], p) ==> false,
            decreases nr - k,
        {
            let id = rel[k];
            proof {
                assert(rel@[k as int] == id);
                assert(rel@.contains(id));
                assert(in_scope(m, st, id));
            }
            let ev = match self.events.get(&id) {
                Some(e) => e,
                None => {
                    proof {
                        assert(false);
                    }
                    return Ok(Vec::new());
                },
            };
            match ev.self_parent {
                Some(p) => {
                    if !self.events.contains_key(&p) && self.pruned_events.contains_key(&p) {
                        let msg = short_hex(&p);
                        proof {
                            assert(pruned_parent(m, id, p));
                        }
                        return Err(CausalGraphError::EventPruned(msg));
                    }
                },
                None => {},
            }
            match ev.other_parent {
                Some(p) => {
                    if !self.events.contains_key(&p) && self.pruned_events.contains_key(&p) {
                        let msg = short_hex(&p);
                        proof {
                            assert(pruned_parent(m, id, p));
                        }
                        return Err(CausalGraphError::EventPruned(msg));
                    }
                },
                None => {},
            }
            k = k + 1;
        }
        proof {
            assert forall|id: EventId, p: EventId| in_scope(m, st, id) implies !#[trigger] pruned_parent(m, id, p) by {
                assert(scope@.contains_key(id));
                assert(rel@.to_set().contains(id));
                let j = choose|j: int| 0 <= j < rel@.len() && rel@[j] == id;
                if pruned_parent(m, id, p) {
                    assert(pruned_parent(m, rel@[j], p));
                }
            }
        }
        self.kahn_order(&rel, &scope, Ghost(st))
    }

    /// The events of `scope` (listed once each in `rel`) that `st` selects.
    fn scope_listing(&self, start_from: Option<&VectorClock>) -> (r: (Vec<EventId>, VecMap<EventId, ()>))
        requires
            self.wf(),
        ensures
            r.1.wf(),
            r.0@.no_duplicates(),
            r.0@.to_set() == r.1@.dom(),
            forall|x: EventId| #[trigger] r.1@.contains_key(x) <==> in_scope(self@, opt_clock(start_from), x),
    {
        let ghost m = self@;
        let ghost st = opt_clock(start_from);
        proof {
            self.events.lemma_entries();
        }
        let n = self.events.len();
        let mut rel: Vec<EventId> = Vec::new();
        let mut scope: VecMap<EventId, ()> = VecMap::new();
        let mut i: usize = 0;
        while i < n
            invariant
                self.wf(),
                self@ == m,
                st == opt_clock(start_from),
                n == self.events.entry_seq().len(),
                i <= n,
                scope.wf(),
                rel@.no_duplicates(),
                rel@.to_set() == scope@.dom(),
                forall|x: EventId| #[trigger] scope@.contains_key(x) ==> in_scope(m, st, x),
                forall|j: int| 0 <= j < i && in_scope(m, st, #[trigger] self.events.entry_seq()[j].0) ==> scope@.contains_key(self.events.entry_seq()[j].0),
                forall|j: int| i <= j < n ==> !scope@.contains_key(#[trigger] self.events.entry_seq()[j].0),
            decreases n - i,
        {
            proof {
                self.events.lemma_entries();
            }
            let id = *self.events.key_at(i);
            let ev = self.events.value_at(i);
            proof {
                assert(self.events@.contains_key(id));
                assert(m.events[id] == ev@);
            }
            let keep = match start_from {
                None => true,
                Some(vc) => ev.vector_clock.happened_after(vc) || ev.vector_clock.concurrent(vc),
            };
            if keep {
                let ghost r0 = rel@;
                let ghost s0 = scope@.dom();
                proof {
                    assert(!s0.contains(id));
                }
                rel.push(id);
                scope.insert(id, ());
                proof {
                    lemma_singleton_seq(id);
                    assert(set![id] - s0 =~= set![id]);
                    lemma_append_fresh(r0, seq![id], s0, set![id]);
                    assert(r0 + seq![id] =~= rel@);
                    assert(scope@.dom() =~= s0 + set![id]);
                }
            }
            proof {
                assert forall|j: int| i + 1 <= j < n implies !scope@.contains_key(#[trigger] self.events.entry_seq()[j].0) by {
                    assert(self.events.entry_seq()[j].0 != self.events.entry_seq()[i as int].0);
                }
            }
            i = i + 1;
        }
        proof {
            self.events.lemma_entries();
            assert forall|x: EventId| in_scope(m, st, x) implies scope@.contains_key(x) by {
                let j = choose|j: int| 0 <= j < self.events.entry_seq().len() && #[trigger] self.events.entry_seq()[j].0 == x;
            }
        }
        proof {
            assert forall|x: EventId| #[trigger] rel@.contains(x) implies in_scope(m, st, x) by {
                assert(rel@.to_set().contains(x));
                assert(scope@.contains_key(x));
            }
        }
        (rel, scope)
    }

    /// Kahn's ordering of the events of `scope` (listed once each in `rel`):
    /// parents first, and among the events whose parents in scope are all
    /// placed, the largest id next; `CycleDetected` when some cannot be placed.
    fn kahn_order(&self, rel: &Vec<EventId>, scope: &VecMap<EventId, ()>, Ghost(st): Ghost<Option<Map<NodeId, u64>>>) -> (r: Result<
        Vec<EventId>,
        CausalGraphError,
    >)
        requires
            self.wf(),
            scope.wf(),
            rel@.no_duplicates(),
            rel@.to_set() == scope@.dom(),
            forall|x: EventId| #[trigger] scope@.contains_key(x) <==> in_scope(self@, st, x),
        ensures
            r matches Ok(v) ==> is_topological(self@, st, v@) && largest_ready_first(self@, st, v@),
            r matches Err(err) ==> err is CycleDetected && exists|y: EventId| #[trigger] in_scope(self@, st, y) && is_ancestor(
                self@,
                y,
                y,
            ),
    {
        let ghost m = self@;
        let nr = rel.len();
        let mut emitted: VecMap<EventId, ()> = VecMap::new();
        let mut result: Vec<EventId> = Vec::new();
        proof {
            assert(result@.to_set() =~= emitted@.dom());
        }
        loop
            invariant
                self.wf(),
                self@ == m,
                scope.wf(),
                emitted.wf(),
                nr == rel@.len(),
                rel@.no_duplicates(),
                rel@.to_set() == scope@.dom(),
                forall|x: EventId| #[trigger] scope@.contains_key(x) <==> in_scope(m, st, x),
                result@.no_duplicates(),
                result@.to_set() == emitted@.dom(),
                emitted@.dom().subset_of(scope@.dom()),
                forall|a: int, p: EventId|
                    0 <= a < result@.len() && #[trigger] parent_set(m.events[result@[a]]).contains(p) && in_scope(m, st, p)
                        ==> exists|b: int| 0 <= b < a && result@[b] == p,
                largest_ready_first(m, st, result@),
            ensures
                largest_ready_first(m, st, result@),
                self@ == m,
                result@.no_duplicates(),
                result@.to_set() == emitted@.dom(),
                emitted@.dom().subset_of(scope@.dom()),
                rel@.to_set() == scope@.dom(),
                forall|x: EventId| #[trigger] scope@.contains_key(x) <==> in_scope(m, st, x),
                forall|a: int, p: EventId|
                    0 <= a < result@.len() && #[trigger] parent_set(m.events[result@[a]]).contains(p) && in_scope(m, st, p)
                        ==> exists|b: int| 0 <= b < a && result@[b] == p,
                forall|x: EventId| #[trigger] scope@.contains_key(x) && !emitted@.contains_key(x) ==> has_pending_parent(
                    m,
                    scope@.dom(),
                    emitted@.dom(),
                    x,
                ),
            decreases scope@.dom().len() - emitted@.dom().len(),
        {
            proof {
                scope.lemma_entries();
                emitted.lemma_entries();
                vstd::set_lib::lemma_len_subset(emitted@.dom(), scope@.dom());
            }
            let mut best: Option<EventId> = None;
            let mut j: usize = 0;
            while j < nr
                invariant
                    self.wf(),
                    self@ == m,
                    scope.wf(),
                    emitted.wf(),
                    nr == rel@.len(),
                    j <= nr,
                    rel@.to_set() == scope@.dom(),
                    forall|x: EventId| #[trigger] scope@.contains_key(x) <==> in_scope(m, st, x),
                    best matches Some(b) ==> scope@.contains_key(b) && !emitted@.contains_key(b)
                        && forall|p: EventId| #[trigger] parent_set(m.events[b]).contains(p) && in_scope(m, st, p) ==> emitted@.contains_key(p),
                    rel@.no_duplicates(),
                    best matches Some(b) ==> exists|qb: int| 0 <= qb < j && rel@[qb] == b,
                    best matches Some(b) ==> forall|q: int|
                        0 <= q < j && #[trigger] ready_in(m, st, emitted@.dom(), rel@[q]) ==> rel@[q] == b || crate::ids::id_lt(rel@[q], b),
                    best is None ==> forall|q: int| 0 <= q < j ==> !#[trigger] ready_in(m, st, emitted@.dom(), rel@[q]),
                    best is None ==> forall|q: int| 0 <= q < j && !emitted@.contains_key(#[trigger] rel@[q]) ==> has_pending_parent(
                        m,
                        scope@.dom(),
                        emitted@.dom(),
                        rel@[q],
                    ),
                decreases nr - j,
            {
                let id = rel[j];
                proof {
                    assert(rel@[j as int] == id);
                    assert(rel@.to_set().contains(id));
                }
                if !emitted.contains_key(&id) {
                    let ev = match self.events.get(&id) {
                        Some(e) => e,
                        None => {
                            proof {
                                assert(false);
                            }
                            return Ok(Vec::new());
                        },
                    };
                    let ready = parent_settled(&ev.self_parent, &scope, &emitted) && parent_settled(&ev.other_parent, &scope, &emitted);
                    proof {
                        assert(m.events[id] == ev@);
                        if !ready {
                            reveal(has_pending_parent);
                            match ev.self_parent {
                                Some(p) => {
                                    if scope@.contains_key(p) && !emitted@.contains_key(p) {
                                        assert(parent_edge(m, id, p));
                                    }
                                },
                                None => {},
                            }
                            match ev.other_parent {
                                Some(p) => {
                                    if scope@.contains_key(p) && !emitted@.contains_key(p) {
                                        assert(parent_edge(m, id, p));
                                    }
                                },
                                None => {},
                            }
                            assert(has_pending_parent(m, scope@.dom(), emitted@.dom(), id));
                        }
                        assert(ready == ready_in(m, st, emitted@.dom(), id)) by {
                            if ready {
                                assert forall|p: EventId| #[trigger] parent_set(m.events[id]).contains(p) && in_scope(m, st, p) implies emitted@.dom().contains(p) by {
                                    assert(scope@.contains_key(p));
                                    match ev.self_parent {
                                        Some(q) => {
                                            if p == q {
                                                assert(emitted@.contains_key(p));
                                            }
                                        },
                                        None => {},
                                    }
                                    match ev.other_parent {
                                        Some(q) => {
                                            if p == q {
                                                assert(emitted@.contains_key(p));
                                            }
                                        },
                                        None => {},
                                    }
                                }
                            } else {
                                match ev.self_parent {
                                    Some(q) => {
                                        if scope@.contains_key(q) && !emitted@.contains_key(q) {
                                            assert(parent_set(m.events[id]).contains(q));
                                        }
                                    },
                                    None => {},
                                }
                                match ev.other_parent {
                                    Some(q) => {
                                        if scope@.contains_key(q) && !emitted@.contains_key(q) {
                                            assert(parent_set(m.events[id]).contains(q));
                                        }
                                    },
                                    None => {},
                                }
                            }
                        }
                    }
                    let ghost best0 = best;
                    if ready {
                        let better = match best {
                            None => true,
                            Some(b) => crate::ids::id_less(&b, &id),
                        };
                        if better {
                            best = Some(id);
                        }
                        proof {
                            match best0 {
                                Some(b0) => {
                                    let qb = choose|qb: int| 0 <= qb < j && rel@[qb] == b0;
                                    assert(b0 != id);
                                    crate::ids::lemma_id_order(b0, id, id);
                                    assert forall|q: int| 0 <= q < j + 1 && #[trigger] ready_in(m, st, emitted@.dom(), rel@[q]) implies rel@[q] == best->0
                                        || crate::ids::id_lt(rel@[q], best->0) by {
                                        if q < j {
                                            crate::ids::lemma_id_order(rel@[q], b0, id);
                                        }
                                    }
                                },
                                None => {},
                            }
                        }
                    }
                }
                proof {
                    if !(best matches Some(_)) {
                        assert(!ready_in(m, st, emitted@.dom(), rel@[j as int]));
                    }
                }
                j = j + 1;
            }
            match best {
                None => {
                    proof {
                        assert forall|x: EventId| #[trigger] scope@.contains_key(x) && !emitted@.contains_key(x) implies has_pending_parent(
                            m,
                            scope@.dom(),
                            emitted@.dom(),
                            x,
                        ) by {
                            assert(rel@.to_set().contains(x));
                            let q = choose|q: int| 0 <= q < rel@.len() && rel@[q] == x;
                            assert(!emitted@.contains_key(rel@[q]));
                        }
                    }
                    break;
                },
                Some(b) => {
                    let ghost r0 = result@;
                    let ghost e0 = emitted@.dom();
                    proof {
                        emitted.lemma_entries();
                    }
                    result.push(b);
                    emitted.insert(b, ());
                    proof {
                        lemma_singleton_seq(b);
                        assert(set![b] - e0 =~= set![b]);
                        lemma_append_fresh(r0, seq![b], e0, set![b]);
                        assert(r0 + seq![b] =~= result@);
                        assert(emitted@.dom() =~= e0 + set![b]);
                        assert forall|a: int, p: EventId|
                            0 <= a < result@.len() && #[trigger] parent_set(m.events[result@[a]]).contains(p) && in_scope(m, st, p)
                            implies exists|c: int| 0 <= c < a && result@[c] == p by {
                            if a < r0.len() {
                                assert(result@[a] == r0[a]);
                                let c = choose|c: int| 0 <= c < a && r0[c] == p;
                                assert(result@[c] == p);
                            } else {
                                assert(e0.contains(p));
                                assert(r0.to_set().contains(p));
                                let c = choose|c: int| 0 <= c < r0.len() && r0[c] == p;
                                assert(result@[c] == p);
                            }
                        }
                        assert(e0.finite());
                        assert(!e0.contains(b));
                        assert(emitted@.dom() =~= e0.insert(b));
                        assert(emitted@.dom().len() == e0.len() + 1);
                        scope.lemma_entries();
                        assert(emitted@.dom().subset_of(scope@.dom()));
                        vstd::set_lib::lemma_len_subset(emitted@.dom(), scope@.dom());
                        assert forall|i: int, y: EventId|
                            0 <= i < result@.len() && #[trigger] ready_in(m, st, result@.take(i).to_set(), y) implies y == result@[i]
                            || crate::ids::id_lt(y, result@[i]) by {
                            if i < r0.len() {
                                assert(result@.take(i) =~= r0.take(i));
                                assert(result@[i] == r0[i]);
                                assert(ready_in(m, st, r0.take(i).to_set(), y));
                            } else {
                                assert(result@.take(i) =~= r0);
                                assert(scope@.contains_key(y));
                                assert(rel@.to_set().contains(y));
                                let q = choose|q: int| 0 <= q < rel@.len() && rel@[q] == y;
                                assert(ready_in(m, st, e0, rel@[q]));
                            }
                        }
                    }
                },
            }
        }
        if result.len() < nr {
            proof {
                result@.unique_seq_to_set();
                rel@.unique_seq_to_set();
                scope.lemma_entries();
                emitted.lemma_entries();
                if forall|x: EventId| #[trigger] scope@.dom().contains(x) ==> emitted@.dom().contains(x) {
                    assert(scope@.dom().subset_of(emitted@.dom()));
                    vstd::set_lib::lemma_len_subset(scope@.dom(), emitted@.dom());
                    assert(false);
                }
                let x0 = choose|x: EventId| #[trigger] scope@.dom().contains(x) && !emitted@.dom().contains(x);
                assert forall|x: EventId| scope@.dom().contains(x) && !emitted@.dom().contains(x) implies #[trigger] has_pending_parent(
                    m,
                    scope@.dom(),
                    emitted@.dom(),
                    x,
                ) by {
                    assert(scope@.contains_key(x) && !emitted@.contains_key(x));
                }
                lemma_stuck_means_cycle(m, scope@.dom(), emitted@.dom(), x0);
                let y = choose|y: EventId| #[trigger] scope@.dom().contains(y) && is_ancestor(m, y, y);
                assert(scope@.contains_key(y));
                assert(in_scope(m, st, y));
            }
            return Err(CausalGraphError::CycleDetected(String::from_str("cycle detected during topological sort")));
        }
        proof {
            broadcast use vstd::seq_lib::seq_to_set_is_finite;
            result@.unique_seq_to_set();
            rel@.unique_seq_to_set();
            scope.lemma_entries();
            vstd::set_lib::lemma_len_subset(emitted@.dom(), scope@.dom());
            vstd::set_lib::lemma_subset_equality(emitted@.dom(), scope@.dom());
            assert forall|x: EventId| #[trigger] result@.contains(x) <==> in_scope(m, st, x) by {
                if in_scope(m, st, x) {
                    assert(scope@.contains_key(x));
                    assert(result@.to_set().contains(x));
                }
                if result@.contains(x) {
                    assert(result@.to_set().contains(x));
                }
            }
        }
        Ok(result)
    }
}


/// The domain tag of state-root hashing.
pub open spec fn state_root_domain() -> Seq<u8> {
    "omnia-state-root".spec_bytes()
}

/// The leaf of an event id in the state tree.
pub open spec fn state_leaf(id: EventId) -> [u8; 32] {
    domain_hash(state_root_domain(), id@)
}

/// An inner node of the state tree.
pub open spec fn state_node(l: [u8; 32], r: [u8; 32]) -> [u8; 32] {
    domain_hash(state_root_domain(), l@ + r@)
}

/// The level above `level`: neighbours hashed in pairs, an odd last node
/// with itself.
pub open spec fn next_level(level: Seq<[u8; 32]>) -> Seq<[u8; 32]> {
    Seq::new(
        ((level.len() + 1) / 2) as nat,
        |i: int|
            state_node(
                level[2 * i],
                if 2 * i + 1 < level.len() {
                    level[2 * i + 1]
                } else {
                    level[2 * i]
                },
            ),
    )
}

/// The root over a non-empty level.
pub open spec fn merkle_root_of(level: Seq<[u8; 32]>) -> [u8; 32]
    decreases level.len(),
{
    if level.len() <= 1 {
        level[0]
    } else {
        merkle_root_of(next_level(level))
    }
}

/// The inclusion path of the node at `idx`: at each level the sibling and
/// whether it is on the right (an odd last node is its own sibling).
pub open spec fn merkle_path_of(level: Seq<[u8; 32]>, idx: int) -> Seq<([u8; 32], bool)>
    decreases level.len(),
{
    if level.len() <= 1 {
        Seq::empty()
    } else {
        let sib = if idx % 2 == 0 {
            if idx + 1 < level.len() {
                (level[idx + 1], true)
            } else {
                (level[idx], true)
            }
        } else {
            (level[idx - 1], false)
        };
        seq![sib] + merkle_path_of(next_level(level), idx / 2)
    }
}

/// Folding a path into a node hash, bottom up.
pub open spec fn fold_path(cur: [u8; 32], path: Seq<([u8; 32], bool)>) -> [u8; 32]
    decreases path.len(),
{
    if path.len() == 0 {
        cur
    } else {
        let next = if path[0].1 {
            state_node(cur, path[0].0)
        } else {
            state_node(path[0].0, cur)
        };
        fold_path(next, path.subrange(1, path.len() as int))
    }
}

/// The ids of the live events in ascending order.
pub open spec fn sorted_event_ids(m: GraphModel) -> Seq<EventId> {
    sorted_listing_of(m.events.dom())
}

/// The leaves of the state tree.
pub open spec fn state_leaves(m: GraphModel) -> Seq<[u8; 32]> {
    sorted_event_ids(m).map_values(|id: EventId| state_leaf(id))
}

/// The state root of a non-empty graph: the root over the leaves of the
/// ascending ids.
pub open spec fn state_root_of(m: GraphModel) -> [u8; 32] {
    merkle_root_of(state_leaves(m))
}

/// Folding the inclusion path of a node gives the root over its level.
pub proof fn lemma_merkle_path_folds_to_root(level: Seq<[u8; 32]>, idx: int)
    requires
        0 <= idx < level.len(),
    ensures
        fold_path(level[idx], merkle_path_of(level, idx)) == merkle_root_of(level),
    decreases level.len(),
{
    if level.len() > 1 {
        let nl = next_level(level);
        let path = merkle_path_of(level, idx);
        let rest = merkle_path_of(nl, idx / 2);
        assert(path.subrange(1, path.len() as int) =~= rest);
        let h = idx / 2;
        if idx % 2 == 0 {
            assert(2 * h == idx);
        } else {
            assert(2 * h + 1 == idx);
        }
        assert(nl[h] == state_node(level[2 * h], if 2 * h + 1 < level.len() { level[2 * h + 1] } else { level[2 * h] }));
        lemma_merkle_path_folds_to_root(nl, h);
    }
}

/// The merkle inclusion law: for a live event, folding its proof from its
/// leaf gives the state root.
pub proof fn lemma_state_proof_verifies(m: GraphModel, id: EventId, idx: int)
    requires
        0 <= idx < sorted_event_ids(m).len(),
        sorted_event_ids(m)[idx] == id,
        m.events.len() > 0,
    ensures
        fold_path(state_leaf(id), merkle_path_of(state_leaves(m), idx)) == state_root_of(m),
{
    lemma_merkle_path_folds_to_root(state_leaves(m), idx);
}

impl CausalGraph {
    /// The live ids in ascending order.
    fn sorted_ids(&self) -> (r: Vec<EventId>)
        requires
            self.wf(),
        ensures
            r@ == sorted_event_ids(self@),
            r@.len() == self@.events.len(),
            r@.to_set() == self@.events.dom(),
            r@.no_duplicates(),
    {
        let ids = self.event_ids();
        let r = sort_ids(&ids);
        proof {
            lemma_sorted_permutation_strict(r@, ids@);
            lemma_sorted_listing_of(r@, self@.events.dom());
            r@.unique_seq_to_set();
            ids@.unique_seq_to_set();
        }
        r
    }
}

/// The leaves over a list of ids.
fn leaves_of(ids: &Vec<EventId>) -> (r: Vec<[u8; 32]>)
    ensures
        r@ == ids@.map_values(|id: EventId| state_leaf(id)),
{
    let mut r: Vec<[u8; 32]> = Vec::new();
    let mut i: usize = 0;
    while i < ids.len()
        invariant
            i <= ids@.len(),
            r@ == ids@.subrange(0, i as int).map_values(|id: EventId| state_leaf(id)),
        decreases ids@.len() - i,
    {
        let h = blake3_hash_domain("omnia-state-root".as_bytes(), &ids[i]);
        r.push(h);
        i = i + 1;
        proof {
            assert(r@ =~= ids@.subrange(0, i as int).map_values(|id: EventId| state_leaf(id)));
        }
    }
    proof {
        assert(ids@.subrange(0, ids@.len() as int) =~= ids@);
    }
    r
}

/// The hash of two children.
fn node_of(l: &[u8; 32], r: &[u8; 32]) -> (h: [u8; 32])
    ensures
        h == state_node(*l, *r),
{
    let mut buf: Vec<u8> = Vec::new();
    append_bytes(&mut buf, l);
    append_bytes(&mut buf, r);
    blake3_hash_domain("omnia-state-root".as_bytes(), buf.as_slice())
}

/// The level above `level`.
fn level_up(level: &Vec<[u8; 32]>) -> (r: Vec<[u8; 32]>)
    ensures
        r@ == next_level(level@),
{
    let n = level.len();
    let half = n / 2 + n % 2;
    let mut r: Vec<[u8; 32]> = Vec::new();
    let mut k: usize = 0;
    while k < half
        invariant
            n == level@.len(),
            half == n / 2 + n % 2,
            k <= half,
            r@.len() == k,
            forall|j: int| 0 <= j < r@.len() ==> #[trigger] r@[j] == next_level(level@)[j],
        decreases half - k,
    {
        let i = 2 * k;
        let h = if i + 1 < n {
            node_of(&level[i], &level[i + 1])
        } else {
            node_of(&level[i], &level[i])
        };
        proof {
            assert(next_level(level@)[k as int] == h);
        }
        r.push(h);
        k = k + 1;
    }
    proof {
        assert(r@ =~= next_level(level@));
    }
    r
}

impl CausalGraph {
    /// The state root: the merkle root over the ascending live event ids
    /// (leaves and inner nodes hashed under the `omnia-state-root` tag, an
    /// odd last node paired with itself); zero for an empty graph.
    pub fn state_root(&self) -> (r: [u8; 32])
        requires
            self.wf(),
        ensures
            self@.events.len() == 0 ==> r@ == Seq::new(32, |i: int| 0u8),
            self@.events.len() > 0 ==> r == state_root_of(self@),
    {
        let ids = self.sorted_ids();
        if ids.len() == 0 {
            let z = [0u8; 32];
            proof {
                broadcast use vstd::array::group_array_axioms;
                assert(z@ =~= Seq::new(32, |i: int| 0u8));
            }
            return z;
        }
        let mut level = leaves_of(&ids);
        while level.len() > 1
            invariant
                level@.len() >= 1,
                merkle_root_of(level@) == state_root_of(self@),
            decreases level@.len(),
        {
            level = level_up(&level);
        }
        level[0]
    }

    /// The inclusion proof of a live event against `state_root`, or `None`
    /// when the event is not live.
    pub fn merkle_proof(&self, event_id: &EventId) -> (r: Option<Vec<([u8; 32], bool)>>)
        requires
            self.wf(),
        ensures
            !self@.events.contains_key(*event_id) ==> r.is_none(),
            self@.events.contains_key(*event_id) ==> exists|idx: int|
                0 <= idx < sorted_event_ids(self@).len() && sorted_event_ids(self@)[idx] == *event_id && (r matches Some(
                    v) && v@ == merkle_path_of(state_leaves(self@), idx)),
    {
        let ids = self.sorted_ids();
        let mut pos: usize = 0;
        let mut found = false;
        while !found && pos < ids.len()
            invariant
                pos <= ids@.len(),
                !found ==> forall|j: int| 0 <= j < pos ==> ids@[j] != *event_id,
                found ==> pos < ids@.len() && ids@[pos as int] == *event_id,
            decreases ids@.len() - pos + (if found { 0int } else { 1int }),
        {
            if id_eq(&ids[pos], event_id) {
                found = true;
            } else {
                pos = pos + 1;
            }
        }
        if !found {
            proof {
                if self@.events.contains_key(*event_id) {
                    assert(ids@.to_set().contains(*event_id));
                    let j = choose|j: int| 0 <= j < ids@.len() && ids@[j] == *event_id;
                }
            }
            return None;
        }
        let ghost idx0 = pos as int;
        let mut proof_path: Vec<([u8; 32], bool)> = Vec::new();
        let mut index = pos;
        let mut level = leaves_of(&ids);
        proof {
            assert(merkle_path_of(level@, index as int) =~= proof_path@ + merkle_path_of(level@, index as int));
        }
        while level.len() > 1
            invariant
                index < level@.len(),
                merkle_path_of(state_leaves(self@), idx0) == proof_path@ + merkle_path_of(level@, index as int),
            decreases level@.len(),
        {
            let sib = if index % 2 == 0 {
                if index + 1 < level.len() {
                    (level[index + 1], true)
                } else {
                    (level[index], true)
                }
            } else {
                (level[index - 1], false)
            };
            let ghost old_level = level@;
            let ghost old_index = index as int;
            proof_path.push(sib);
            index = index / 2;
            level = level_up(&level);
            proof {
                assert(merkle_path_of(old_level, old_index) == seq![sib] + merkle_path_of(level@, index as int));
                assert(proof_path@ + merkle_path_of(level@, index as int) =~= proof_path@.drop_last() + (seq![sib]
                    + merkle_path_of(level@, index as int)));
            }
        }
        proof {
            assert(proof_path@ + merkle_path_of(level@, index as int) =~= proof_path@);
        }
        Some(proof_path)
    }
}


/// The event with its status replaced.
pub open spec fn with_status(e: EventView, st: EventStatus) -> EventView {
    EventView { status: st, ..e }
}

/// The graph after marking the live event `id` finalized.
pub open spec fn finalized_model(m: GraphModel, id: EventId) -> GraphModel {
    GraphModel {
        events: m.events.insert(id, with_status(m.events[id], EventStatus::Finalized)),
        finalized_count: if m.events[id].status != EventStatus::Finalized && m.finalized_count < usize::MAX {
            (m.finalized_count + 1) as usize
        } else {
            m.finalized_count
        },
        ..m
    }
}

/// Whether `err` is the error of finalizing `id` in `m` (pruned, or not live).
pub open spec fn finalize_error(m: GraphModel, id: EventId, err: CausalGraphError) -> bool {
    if m.pruned.contains_key(id) {
        err matches CausalGraphError::EventPruned(s) && s@ == short_id(id)
    } else {
        err matches CausalGraphError::InvalidEvent(s) && s@ == "event not found: "@ + short_id(id)
    }
}

impl CausalGraph {
    /// Set the status of the live event `id` to finalized (counting it once).
    fn mark_finalized(&mut self, event_id: &EventId)
        requires
            old(self).wf(),
            old(self)@.events.contains_key(*event_id),
        ensures
            final(self).wf(),
            final(self)@ == finalized_model(old(self)@, *event_id),
    {
        let ghost m = self@;
        match self.events.remove(event_id) {
            Some(mut ev) => {
                if ev.status != EventStatus::Finalized {
                    ev.status = EventStatus::Finalized;
                    if self.finalized_count < usize::MAX {
                        self.finalized_count = self.finalized_count + 1;
                    }
                }
                self.events.insert(*event_id, ev);
                proof {
                    assert(self@.events =~= finalized_model(m, *event_id).events);
                }
            },
            None => {},
        }
    }

    /// Mark a live event finalized and record its finalization round.
    /// Fails with `EventPruned` for a pruned event and `InvalidEvent` for an
    /// unknown one, changing nothing.
    pub fn finalize_event_with_round(&mut self, event_id: &EventId, round: u64) -> (r: Result<(), CausalGraphError>)
        requires
            old(self).wf(),
        ensures
            final(self).wf(),
            (!old(self)@.pruned.contains_key(*event_id) && old(self)@.events.contains_key(*event_id)) ==> (r is Ok
                && final(self)@ == (GraphModel {
                finalized_rounds: old(self)@.finalized_rounds.insert(*event_id, round),
                ..finalized_model(old(self)@, *event_id)
            })),
            !(!old(self)@.pruned.contains_key(*event_id) && old(self)@.events.contains_key(*event_id)) ==> (r matches Err(
                err) && finalize_error(old(self)@, *event_id, err) && final(self)@ == old(self)@),
    {
        if self.pruned_events.contains_key(event_id) {
            return Err(CausalGraphError::EventPruned(short_hex(event_id)));
        }
        if !self.events.contains_key(event_id) {
            return Err(CausalGraphError::InvalidEvent(message_with_id("event not found: ", event_id)));
        }
        self.mark_finalized(event_id);
        self.finalized_rounds.insert(*event_id, round);
        proof {
            assert(self@.events.contains_key(*event_id));
        }
        Ok(())
    }

    /// Mark a live event finalized without recording a round. Fails as
    /// `finalize_event_with_round` does.
    pub fn finalize_event(&mut self, event_id: &EventId) -> (r: Result<(), CausalGraphError>)
        requires
            old(self).wf(),
        ensures
            final(self).wf(),
            (!old(self)@.pruned.contains_key(*event_id) && old(self)@.events.contains_key(*event_id)) ==> (r is Ok
                && final(self)@ == finalized_model(old(self)@, *event_id)),
            !(!old(self)@.pruned.contains_key(*event_id) && old(self)@.events.contains_key(*event_id)) ==> (r matches Err(
                err) && finalize_error(old(self)@, *event_id, err) && final(self)@ == old(self)@),
    {
        if self.pruned_events.contains_key(event_id) {
            return Err(CausalGraphError::EventPruned(short_hex(event_id)));
        }
        if !self.events.contains_key(event_id) {
            return Err(CausalGraphError::InvalidEvent(message_with_id("event not found: ", event_id)));
        }
        self.mark_finalized(event_id);
        Ok(())
    }
}

/// Finalized events older than the cutoff round.
pub open spec fn prune_set(m: GraphModel, cutoff: u64) -> Set<EventId> {
    Set::new(|id: EventId| m.finalized_rounds.contains_key(id) && m.finalized_rounds[id] < cutoff)
}

/// Those of them that are live.
pub open spec fn live_prune_set(m: GraphModel, cutoff: u64) -> Set<EventId> {
    prune_set(m, cutoff).intersect(m.events.dom())
}

/// The metadata kept for a pruned live event.
pub open spec fn pruned_meta(m: GraphModel, id: EventId) -> PrunedEventMetadata {
    PrunedEventMetadata {
        event_id: id,
        creator: m.events[id].creator,
        sequence: m.events[id].sequence,
        depth: depth_of(m, id),
        finalized_round: m.finalized_rounds[id],
    }
}

/// The creator index without the ids in `l`, dropping lists left empty.
pub open spec fn strip_ids(bc: Map<NodeId, Seq<EventId>>, l: Set<EventId>) -> Map<NodeId, Seq<EventId>> {
    Map::new(
        |c: NodeId| bc.contains_key(c) && bc[c].filter(|x: EventId| !l.contains(x)).len() > 0,
        |c: NodeId| bc[c].filter(|x: EventId| !l.contains(x)),
    )
}

/// The graph after pruning the live events of `l` (before the pruned
/// metadata is capped), their ids appended to the pruned order as `added`.
pub open spec fn pruned_model(m: GraphModel, l: Set<EventId>, p: Set<EventId>, added: Seq<EventId>) -> GraphModel {
    GraphModel {
        events: m.events.remove_keys(l),
        by_creator: strip_ids(m.by_creator, l),
        tips: m.tips - l,
        finalized_count: if m.finalized_count >= p.len() {
            (m.finalized_count - p.len()) as usize
        } else {
            0
        },
        depths: m.depths.remove_keys(l),
        pruned: Map::new(
            |id: EventId| m.pruned.contains_key(id) || l.contains(id),
            |id: EventId|
                if l.contains(id) {
                    pruned_meta(m, id)
                } else {
                    m.pruned[id]
                },
        ),
        pruned_order: m.pruned_order + added,
        finalized_rounds: m.finalized_rounds.remove_keys(l),
        ..m
    }
}

/// `m1` with the metadata of the first `k` ids of the pruned order evicted.
pub open spec fn evict_prefix(m1: GraphModel, k: int) -> GraphModel {
    GraphModel {
        pruned: m1.pruned.remove_keys(m1.pruned_order.subrange(0, k).to_set()),
        pruned_order: m1.pruned_order.subrange(k, m1.pruned_order.len() as int),
        ..m1
    }
}

/// `m2` is `m1` with the oldest pruned metadata evicted, one id of the
/// pruned order at a time, exactly while more than `MAX_PRUNED_EVENTS`
/// entries remain (or until the order runs out).
pub open spec fn evicted(m1: GraphModel, m2: GraphModel) -> bool {
    exists|k: int|
        0 <= k <= m1.pruned_order.len() && #[trigger] evict_prefix(m1, k) == m2 && (m2.pruned.len() <= MAX_PRUNED_EVENTS || k
            == m1.pruned_order.len()) && forall|k2: int| 0 <= k2 < k ==> #[trigger] evict_prefix(m1, k2).pruned.len() > MAX_PRUNED_EVENTS
}


/// The ids of `bc` listing lists the ids in `l` removed.
fn strip_list(list: &Vec<EventId>, l: &VecMap<EventId, ()>) -> (r: Vec<EventId>)
    requires
        l.wf(),
    ensures
        r@ == list@.filter(|x: EventId| !l@.dom().contains(x)),
{
    let ghost ld = l@.dom();
    let mut r: Vec<EventId> = Vec::new();
    let mut i: usize = 0;
    while i < list.len()
        invariant
            l.wf(),
            ld == l@.dom(),
            i <= list@.len(),
            r@ == list@.take(i as int).filter(|x: EventId| !ld.contains(x)),
        decreases list@.len() - i,
    {
        proof {
            assert(list@.take(i + 1).drop_last() =~= list@.take(i as int));
            assert(list@.take(i + 1).last() == list@[i as int]);
            reveal(Seq::filter);
        }
        let x = list[i];
        if !l.contains_key(&x) {
            r.push(x);
        }
        proof {
            assert(r@ =~= list@.take(i + 1).filter(|x: EventId| !ld.contains(x)));
        }
        i = i + 1;
    }
    proof {
        assert(list@.take(list@.len() as int) =~= list@);
    }
    r
}

impl CausalGraph {
    /// Evict the oldest pruned metadata while more than `MAX_PRUNED_EVENTS`
    /// entries are kept.
    fn evict_pruned_events(&mut self)
        requires
            old(self).wf(),
        ensures
            final(self).wf(),
            evicted(old(self)@, final(self)@),
    {
        let ghost m1 = self@;
        let ghost k: int = 0;
        proof {
            assert(m1.pruned_order.subrange(0, 0).to_set() =~= Set::<EventId>::empty());
            assert(m1.pruned.remove_keys(Set::<EventId>::empty()) =~= m1.pruned);
            assert(m1.pruned_order.subrange(0, m1.pruned_order.len() as int) =~= m1.pruned_order);
        }
        loop
            invariant
                self.wf(),
                0 <= k <= m1.pruned_order.len(),
                self@ == evict_prefix(m1, k),
                forall|k2: int| 0 <= k2 < k ==> #[trigger] evict_prefix(m1, k2).pruned.len() > MAX_PRUNED_EVENTS,
            ensures
                self.wf(),
                evicted(m1, self@),
            decreases m1.pruned_order.len() - k,
        {
            proof {
                self.pruned_events.lemma_entries();
            }
            if self.pruned_events.len() <= MAX_PRUNED_EVENTS {
                proof {
                    assert(evict_prefix(m1, k) == self@);
                }
                break;
            }
            if self.pruned_order.len() == 0 {
                proof {
                    assert(evict_prefix(m1, k) == self@);
                }
                break;
            }
            proof {
                assert(evict_prefix(m1, k).pruned.len() > MAX_PRUNED_EVENTS);
            }
            let oldest = self.pruned_order.remove(0);
            self.pruned_events.remove(&oldest);
            proof {
                let ok = m1.pruned_order.subrange(0, k);
                assert(oldest == m1.pruned_order[k]);
                assert(m1.pruned_order.subrange(0, k + 1) =~= ok.push(oldest));
                ok.lemma_push_to_set_commute(oldest);
                assert(self@.pruned =~= m1.pruned.remove_keys(m1.pruned_order.subrange(0, k + 1).to_set()));
                assert(self@.pruned_order =~= m1.pruned_order.subrange(k + 1, m1.pruned_order.len() as int));
                assert(self@ == evict_prefix(m1, k + 1));
                k = k + 1;
            }
        }
    }
}


/// The partial pruning state after handling the ids in `lj`.
pub open spec fn partly_pruned(m: GraphModel, lj: Set<EventId>, added: Seq<EventId>) -> GraphModel {
    GraphModel {
        events: m.events.remove_keys(lj),
        tips: m.tips - lj,
        depths: m.depths.remove_keys(lj),
        pruned: Map::new(
            |id: EventId| m.pruned.contains_key(id) || lj.contains(id),
            |id: EventId|
                if lj.contains(id) {
                    pruned_meta(m, id)
                } else {
                    m.pruned[id]
                },
        ),
        pruned_order: m.pruned_order + added,
        finalized_rounds: m.finalized_rounds.remove_keys(lj),
        ..m
    }
}

impl CausalGraph {
    /// Prune the finalized events whose finalization round is older than
    /// `current_round - depth` (saturating; `depth == 0` prunes nothing):
    /// each live one leaves the graph, its tips and indexes, and keeps only
    /// its metadata; the finalized count drops by the number of candidates,
    /// which is returned; then the oldest metadata beyond
    /// `MAX_PRUNED_EVENTS` is evicted.
    pub fn prune_finalized(&mut self, current_round: u64, depth: u64) -> (r: Result<usize, CausalGraphError>)
        requires
            old(self).wf(),
        ensures
            final(self).wf(),
            depth == 0 ==> r == Ok::<usize, CausalGraphError>(0) && final(self)@ == old(self)@,
            depth > 0 ==> {
                let cutoff = if current_round >= depth { (current_round - depth) as u64 } else { 0 };
                let p = prune_set(old(self)@, cutoff);
                let l = live_prune_set(old(self)@, cutoff);
                &&& r == Ok::<usize, CausalGraphError>(p.len() as usize)
                &&& exists|added: Seq<EventId>| #[trigger] added.to_set() == l && added.no_duplicates()
                    && evicted(pruned_model(old(self)@, l, p, added), final(self)@)
            },
    {
        if depth == 0 {
            return Ok(0);
        }
        let ghost m = self@;
        let cutoff = current_round.saturating_sub(depth);
        let ghost pset = prune_set(m, cutoff);
        let ghost lset_spec = live_prune_set(m, cutoff);
        proof {
            self.finalized_rounds.lemma_entries();
        }
        let n = self.finalized_rounds.len();
        let mut to_prune: Vec<EventId> = Vec::new();
        let mut i: usize = 0;
        while i < n
            invariant
                self.wf(),
                self@ == m,
                n == self.finalized_rounds.entry_seq().len(),
                i <= n,
                to_prune@.no_duplicates(),
                forall|x: EventId| #[trigger] to_prune@.contains(x) <==> exists|j: int|
                    0 <= j < i && #[trigger] self.finalized_rounds.entry_seq()[j].0 == x && self.finalized_rounds.entry_seq()[j].1 < cutoff,
            decreases n - i,
        {
            proof {
                self.finalized_rounds.lemma_entries();
            }
            let id = *self.finalized_rounds.key_at(i);
            let round = *self.finalized_rounds.value_at(i);
            if round < cutoff {
                proof {
                    assert(!to_prune@.contains(id)) by {
                        if to_prune@.contains(id) {
                            let j = choose|j: int| 0 <= j < i && #[trigger] self.finalized_rounds.entry_seq()[j].0 == id && self.finalized_rounds.entry_seq()[j].1 < cutoff;
                            assert(self.finalized_rounds.entry_seq()[j].0 != self.finalized_rounds.entry_seq()[i as int].0);
                        }
                    }
                }
                let ghost t0 = to_prune@;
                to_prune.push(id);
                proof {
                    assert forall|x: EventId| #[trigger] to_prune@.contains(x) <==> exists|j: int|
                        0 <= j < i + 1 && #[trigger] self.finalized_rounds.entry_seq()[j].0 == x && self.finalized_rounds.entry_seq()[j].1 < cutoff by {
                        if to_prune@.contains(x) {
                            let q = choose|q: int| 0 <= q < to_prune@.len() && to_prune@[q] == x;
                            if q < t0.len() {
                                assert(t0[q] == x);
                                assert(t0.contains(x));
                            } else {
                                assert(self.finalized_rounds.entry_seq()[i as int].0 == x);
                            }
                        }
                        if exists|j: int| 0 <= j < i + 1 && #[trigger] self.finalized_rounds.entry_seq()[j].0 == x && self.finalized_rounds.entry_seq()[j].1 < cutoff {
                            let j = choose|j: int| 0 <= j < i + 1 && #[trigger] self.finalized_rounds.entry_seq()[j].0 == x && self.finalized_rounds.entry_seq()[j].1 < cutoff;
                            if j < i {
                                assert(t0.contains(x));
                                let q = choose|q: int| 0 <= q < t0.len() && t0[q] == x;
                                assert(to_prune@[q] == x);
                            } else {
                                assert(to_prune@[t0.len() as int] == x);
                            }
                        }
                    }
                }
            } else {
                proof {
                    assert forall|x: EventId| #[trigger] to_prune@.contains(x) <==> exists|j: int|
                        0 <= j < i + 1 && #[trigger] self.finalized_rounds.entry_seq()[j].0 == x && self.finalized_rounds.entry_seq()[j].1 < cutoff by {
                        if exists|j: int| 0 <= j < i + 1 && #[trigger] self.finalized_rounds.entry_seq()[j].0 == x && self.finalized_rounds.entry_seq()[j].1 < cutoff {
                            let j = choose|j: int| 0 <= j < i + 1 && #[trigger] self.finalized_rounds.entry_seq()[j].0 == x && self.finalized_rounds.entry_seq()[j].1 < cutoff;
                            assert(j != i);
                        }
                    }
                }
            }
            i = i + 1;
        }
        proof {
            self.finalized_rounds.lemma_entries();
            assert forall|x: EventId| #[trigger] to_prune@.contains(x) <==> pset.contains(x) by {
                if pset.contains(x) {
                    let j = choose|j: int| 0 <= j < self.finalized_rounds.entry_seq().len() && #[trigger] self.finalized_rounds.entry_seq()[j].0 == x;
                }
            }
            assert(to_prune@.to_set() =~= pset);
            to_prune@.unique_seq_to_set();
        }
        let count = to_prune.len();
        let mut lset: VecMap<EventId, ()> = VecMap::new();
        let ghost mut added: Seq<EventId> = Seq::empty();
        let mut j: usize = 0;
        proof {
            assert(partly_pruned(m, Set::empty(), added) =~= m) by {
                assert(m.events.remove_keys(Set::empty()) =~= m.events);
                assert(m.depths.remove_keys(Set::empty()) =~= m.depths);
                assert(m.finalized_rounds.remove_keys(Set::empty()) =~= m.finalized_rounds);
                assert(m.tips - Set::<EventId>::empty() =~= m.tips);
                assert(m.pruned_order + added =~= m.pruned_order);
                assert(Map::new(
                    |id: EventId| m.pruned.contains_key(id) || Set::<EventId>::empty().contains(id),
                    |id: EventId| if Set::<EventId>::empty().contains(id) { pruned_meta(m, id) } else { m.pruned[id] },
                ) =~= m.pruned);
            }
        }
        while j < count
            invariant
                self.wf(),
                lset.wf(),
                count == to_prune@.len(),
                to_prune@.no_duplicates(),
                to_prune@.to_set() == pset,
                pset == prune_set(m, cutoff),
                j <= count,
                lset@.dom() == to_prune@.take(j as int).to_set().intersect(m.events.dom()),
                added.no_duplicates(),
                added.to_set() == lset@.dom(),
                self@ == partly_pruned(m, lset@.dom(), added),
            decreases count - j,
        {
            let id = to_prune[j];
            let ghost lj = lset@.dom();
            proof {
                assert(to_prune@.take(j + 1) =~= to_prune@.take(j as int).push(id));
                to_prune@.take(j as int).lemma_push_to_set_commute(id);
                assert(!to_prune@.take(j as int).contains(id)) by {
                    if to_prune@.take(j as int).contains(id) {
                        let q = choose|q: int| 0 <= q < j && to_prune@.take(j as int)[q] == id;
                        assert(to_prune@[q] == to_prune@[j as int]);
                    }
                }
                assert(!lj.contains(id));
                assert(to_prune@.contains(id));
                assert(pset.contains(id));
            }
            proof {
                assert(m.finalized_rounds.contains_key(id));
                assert(self@.finalized_rounds.contains_key(id));
                assert(self@.finalized_rounds[id] == m.finalized_rounds[id]);
                assert(self@.depths.contains_key(id) == m.depths.contains_key(id));
                assert(self@.depths.contains_key(id) ==> self@.depths[id] == m.depths[id]);
                assert(self@.events.contains_key(id) == m.events.contains_key(id));
                assert(self@.events.contains_key(id) ==> self@.events[id] == m.events[id]);
            }
            let ghost before = self@;
            let ghost before_raw = self.events@;
            match self.events.remove(&id) {
                Some(ev) => {
                    proof {
                        assert(m.events.contains_key(id));
                        assert(ev@ == m.events[id]);
                    }
                    let fr = match self.finalized_rounds.remove(&id) {
                        Some(r) => r,
                        None => {
                            proof {
                                assert(false);
                            }
                            return Err(CausalGraphError::IntegrityError(String::from_str("finalized round missing")));
                        },
                    };
                    let d = match self.depths.remove(&id) {
                        Some(x) => x,
                        None => 0,
                    };
                    proof {
                        assert(d == depth_of(m, id));
                        assert(fr == m.finalized_rounds[id]);
                    }
                    let meta = PrunedEventMetadata {
                        event_id: id,
                        creator: ev.creator,
                        sequence: ev.sequence,
                        depth: d,
                        finalized_round: fr,
                    };
                    proof {
                        assert(meta == pruned_meta(m, id));
                    }
                    self.pruned_events.insert(id, meta);
                    self.pruned_order.push(id);
                    self.tips.remove(&id);
                    lset.insert(id, ());
                    proof {
                        let ghost a0 = added;
                        added = added.push(id);
                        lemma_singleton_seq(id);
                        assert(set![id] - lj =~= set![id]);
                        lemma_append_fresh(a0, seq![id], lj, set![id]);
                        assert(a0 + seq![id] =~= added);
                        assert(lset@.dom() =~= lj.insert(id));
                        assert(lset@.dom() =~= to_prune@.take(j + 1).to_set().intersect(m.events.dom()));
                        let nl = lset@.dom();
                        assert(self.events@ =~= before_raw.remove(id));
                        assert(self@.events =~= before.events.remove(id));
                        assert(self@.events =~= m.events.remove_keys(nl));
                        assert(self@.tips =~= m.tips - nl);
                        assert(self@.depths =~= m.depths.remove_keys(nl));
                        assert(self@.finalized_rounds =~= m.finalized_rounds.remove_keys(nl));
                        assert(self@.pruned_order =~= m.pruned_order + added);
                        assert(self@.pruned =~= partly_pruned(m, nl, added).pruned);
                        assert(self@ == partly_pruned(m, nl, added));
                    }
                },
                None => {
                    proof {
                        assert(!m.events.contains_key(id));
                        assert(self.events@ =~= before_raw);
                        assert(self@ == before);
                        assert(lset@.dom() =~= to_prune@.take(j + 1).to_set().intersect(m.events.dom()));
                    }
                },
            }
            j = j + 1;
        }
        proof {
            assert(to_prune@.take(count as int) =~= to_prune@);
            assert(lset@.dom() =~= lset_spec);
        }
        let ghost mid = self@;
        let mut new_bc: VecMap<NodeId, Vec<EventId>> = VecMap::new();
        proof {
            self.by_creator.lemma_entries();
        }
        let nb = self.by_creator.len();
        let mut b: usize = 0;
        while b < nb
            invariant
                self.wf(),
                self@ == mid,
                lset.wf(),
                new_bc.wf(),
                nb == self.by_creator.entry_seq().len(),
                b <= nb,
                forall|c: NodeId| #[trigger] new_bc@.contains_key(c) <==> (exists|q: int|
                    0 <= q < b && #[trigger] self.by_creator.entry_seq()[q].0 == c) && mid.by_creator.contains_key(c)
                    && mid.by_creator[c].filter(|x: EventId| !lset@.dom().contains(x)).len() > 0,
                forall|c: NodeId| #[trigger] new_bc@.contains_key(c) ==> new_bc@[c]@ == mid.by_creator[c].filter(
                    |x: EventId| !lset@.dom().contains(x),
                ),
            decreases nb - b,
        {
            proof {
                self.by_creator.lemma_entries();
            }
            let c = *self.by_creator.key_at(b);
            let list = self.by_creator.value_at(b);
            proof {
                assert(self.by_creator@.contains_key(c));
                assert(mid.by_creator[c] == list@);
            }
            let kept = strip_list(list, &lset);
            if kept.len() > 0 {
                new_bc.insert(c, kept);
            }
            proof {
                assert forall|c2: NodeId| #[trigger] new_bc@.contains_key(c2) <==> (exists|q: int|
                    0 <= q < b + 1 && #[trigger] self.by_creator.entry_seq()[q].0 == c2) && mid.by_creator.contains_key(c2)
                    && mid.by_creator[c2].filter(|x: EventId| !lset@.dom().contains(x)).len() > 0 by {
                    if exists|q: int| 0 <= q < b + 1 && #[trigger] self.by_creator.entry_seq()[q].0 == c2 {
                        let q = choose|q: int| 0 <= q < b + 1 && #[trigger] self.by_creator.entry_seq()[q].0 == c2;
                        if q == b {
                            assert(c2 == c);
                        }
                    }
                    if c2 == c {
                        assert(self.by_creator.entry_seq()[b as int].0 == c2);
                    }
                }
            }
            b = b + 1;
        }
        proof {
            self.by_creator.lemma_entries();
            assert(new_bc@.map_values(|v: Vec<EventId>| v@) =~= strip_ids(m.by_creator, lset_spec)) by {
                assert forall|c: NodeId| #[trigger] new_bc@.contains_key(c) <==> strip_ids(m.by_creator, lset_spec).contains_key(c) by {
                    if m.by_creator.contains_key(c) {
                        assert(mid.by_creator.contains_key(c));
                        assert(self.by_creator@.contains_key(c));
                        let q = choose|q: int| 0 <= q < self.by_creator.entry_seq().len() && #[trigger] self.by_creator.entry_seq()[q].0 == c;
                    }
                }
            }
        }
        self.by_creator = new_bc;
        self.finalized_count = self.finalized_count.saturating_sub(count);
        proof {
            assert(self@ == pruned_model(m, lset_spec, pset, added));
        }
        self.evict_pruned_events();
        Ok(count)
    }
}


/// Which live events a listing selects.
enum Selection<'a> {
    /// Those whose id is not among these.
    Unknown(&'a [EventId]),
    /// Those whose clock is after this one.
    After(&'a VectorClock),
    /// Those other than this id whose clock is concurrent with this one.
    Concurrent(EventId, &'a VectorClock),
}

/// Whether `sel` selects the event `e`.
spec fn selected(sel: Selection, e: EventView) -> bool {
    match sel {
        Selection::Unknown(k) => !k@.contains(e.id),
        Selection::After(vc) => vc_happened_before(vc@, e.clock),
        Selection::Concurrent(id, vc) => e.id != id && vc_concurrent(e.clock, vc@),
    }
}

/// `v` lists live events (as stored), each once, all satisfying `keep`.
pub open spec fn lists_some(m: GraphModel, v: Seq<EventView>, keep: spec_fn(EventView) -> bool) -> bool {
    &&& v.map_values(|e: EventView| e.id).no_duplicates()
    &&& forall|i: int| 0 <= i < v.len() ==> m.events.contains_key(#[trigger] v[i].id) && m.events[v[i].id] == v[i] && keep(v[i])
}

/// Every live event satisfying `keep` is in `v`.
pub open spec fn lists_all(m: GraphModel, v: Seq<EventView>, keep: spec_fn(EventView) -> bool) -> bool {
    forall|id: EventId| #[trigger] m.events.contains_key(id) && keep(m.events[id]) ==> exists|i: int| 0 <= i < v.len() && v[i].id == id
}

/// The view of a list of event references.
pub open spec fn ref_views(v: Seq<&Event>) -> Seq<EventView> {
    v.map_values(|e: &Event| e@)
}

impl CausalGraph {
    /// Whether `sel` selects `ev`.
    fn selects(sel: &Selection, ev: &Event) -> (r: bool)
        ensures
            r == selected(*sel, ev@),
    {
        match sel {
            Selection::Unknown(known) => {
                let mut seen = false;
                let mut k: usize = 0;
                while k < known.len()
                    invariant
                        k <= known@.len(),
                        seen == exists|q: int| 0 <= q < k && #[trigger] known@[q] == ev.id,
                    decreases known@.len() - k,
                {
                    if id_eq(&known[k], &ev.id) {
                        seen = true;
                    }
                    k = k + 1;
                }
                !seen
            },
            Selection::After(vc) => ev.vector_clock.happened_after(vc),
            Selection::Concurrent(id, vc) => !id_eq(&ev.id, id) && ev.vector_clock.concurrent(vc),
        }
    }

    /// The live events `sel` selects, in storage order, at most `limit`.
    fn collect(&self, sel: &Selection, limit: Option<usize>) -> (r: Vec<&Event>)
        requires
            self.wf(),
        ensures
            lists_some(self@, ref_views(r@), |e: EventView| selected(*sel, e)),
            limit matches Some(l) ==> r@.len() <= l,
            (limit matches Some(l) ==> r@.len() < l) ==> lists_all(self@, ref_views(r@), |e: EventView| selected(*sel, e)),
    {
        let ghost keep = |e: EventView| selected(*sel, e);
        proof {
            self.events.lemma_entries();
        }
        let n = self.events.len();
        let mut r: Vec<&Event> = Vec::new();
        let mut i: usize = 0;
        while i < n
            invariant
                self.wf(),
                n == self.events.entry_seq().len(),
                i <= n,
                keep == (|e: EventView| selected(*sel, e)),
                limit matches Some(l) ==> r@.len() <= l,
                lists_some(self@, ref_views(r@), keep),
                forall|q: int| #![trigger ref_views(r@)[q]] 0 <= q < r@.len() ==> exists|j: int| 0 <= j < i && #[trigger] self.events.entry_seq()[j].0 == ref_views(r@)[q].id,
                (limit matches Some(l) ==> r@.len() < l) ==> forall|j: int| 0 <= j < i && keep(#[trigger] self.events.entry_seq()[j].1@) ==> exists|q: int| 0 <= q < r@.len() && ref_views(r@)[q].id == self.events.entry_seq()[j].0,
            decreases n - i,
        {
            let full = match limit {
                Some(l) => r.len() >= l,
                None => false,
            };
            if full {
                return r;
            }
            proof {
                self.events.lemma_entries();
            }
            let id = self.events.key_at(i);
            let ev = self.events.value_at(i);
            proof {
                assert(self.events@.contains_key(*id));
                assert(self@.events[*id] == ev@);
                assert(ev@.id == *id);
            }
            if Self::selects(sel, ev) {
                let ghost r0 = r@;
                r.push(ev);
                proof {
                    assert(ref_views(r@) =~= ref_views(r0).push(ev@));
                    assert forall|q: int| 0 <= q < r0.len() implies ref_views(r0)[q].id != *id by {
                        let j = choose|j: int| 0 <= j < i && #[trigger] self.events.entry_seq()[j].0 == ref_views(r0)[q].id;
                        assert(self.events.entry_seq()[j].0 != self.events.entry_seq()[i as int].0);
                    }
                    let ids0 = ref_views(r0).map_values(|e: EventView| e.id);
                    assert(ref_views(r@).map_values(|e: EventView| e.id) =~= ids0.push(*id));
                    assert forall|a: int, b: int| 0 <= a < ids0.len() + 1 && 0 <= b < ids0.len() + 1 && a != b implies ids0.push(*id)[a] != ids0.push(*id)[b] by {
                        if a < ids0.len() && b < ids0.len() {
                        } else if a < ids0.len() {
                            assert(ids0[a] == ref_views(r0)[a].id);
                        } else {
                            assert(ids0[b] == ref_views(r0)[b].id);
                        }
                    }
                    assert forall|j: int| 0 <= j < i + 1 && keep(#[trigger] self.events.entry_seq()[j].1@) implies exists|q: int| 0 <= q < r@.len() && ref_views(r@)[q].id == self.events.entry_seq()[j].0 by {
                        if j == i {
                            assert(ref_views(r@)[r0.len() as int].id == *id);
                        } else {
                            let q = choose|q: int| 0 <= q < r0.len() && ref_views(r0)[q].id == self.events.entry_seq()[j].0;
                            assert(ref_views(r@)[q] == ref_views(r0)[q]);
                        }
                    }
                    assert forall|q: int| #![trigger ref_views(r@)[q]] 0 <= q < r@.len() implies exists|j: int| 0 <= j < i + 1 && #[trigger] self.events.entry_seq()[j].0 == ref_views(r@)[q].id by {
                        if q == r0.len() {
                            assert(self.events.entry_seq()[i as int].0 == ref_views(r@)[q].id);
                        } else {
                            assert(ref_views(r@)[q] == ref_views(r0)[q]);
                        }
                    }
                }
            } else {
                proof {
                    assert forall|j: int| 0 <= j < i + 1 && keep(#[trigger] self.events.entry_seq()[j].1@) implies exists|q: int| 0 <= q < r@.len() && ref_views(r@)[q].id == self.events.entry_seq()[j].0 by {
                        assert(j != i);
                    }
                }
            }
            i = i + 1;
        }
        proof {
            self.events.lemma_entries();
            if (limit matches Some(l) ==> r@.len() < l) {
                assert forall|id: EventId| #[trigger] self@.events.contains_key(id) && keep(self@.events[id]) implies exists|q: int| 0 <= q < r@.len() && ref_views(r@)[q].id == id by {
                    assert(self.events@.contains_key(id));
                    let j = choose|j: int| 0 <= j < self.events.entry_seq().len() && #[trigger] self.events.entry_seq()[j].0 == id;
                    assert(self.events.entry_seq()[j].1@ == self@.events[id]);
                    assert(keep(self.events.entry_seq()[j].1@));
                }
            }
        }
        r
    }

    /// The live events whose ids are not in `known`.
    pub fn diff(&self, known: &[EventId]) -> (r: Vec<&Event>)
        requires
            self.wf(),
        ensures
            lists_some(self@, ref_views(r@), |e: EventView| !known@.contains(e.id)),
            lists_all(self@, ref_views(r@), |e: EventView| !known@.contains(e.id)),
    {
        let sel = Selection::Unknown(known);
        let r = self.collect(&sel, None);
        proof {
            assert((|e: EventView| selected(sel, e)) =~= (|e: EventView| !known@.contains(e.id)));
        }
        r
    }

    /// The live events whose clock is after `clock`.
    pub fn since(&self, clock: &VectorClock) -> (r: Vec<&Event>)
        requires
            self.wf(),
        ensures
            lists_some(self@, ref_views(r@), |e: EventView| vc_happened_before(clock@, e.clock)),
            lists_all(self@, ref_views(r@), |e: EventView| vc_happened_before(clock@, e.clock)),
    {
        let sel = Selection::After(clock);
        let r = self.collect(&sel, None);
        proof {
            assert((|e: EventView| selected(sel, e)) =~= (|e: EventView| vc_happened_before(clock@, e.clock)));
        }
        r
    }

    /// Up to `max_results` live events concurrent with the live event
    /// `event_id` (none when that event is not live).
    pub fn find_concurrent(&self, event_id: &EventId, max_results: usize) -> (r: Vec<&Event>)
        requires
            self.wf(),
        ensures
            !self@.events.contains_key(*event_id) ==> r@.len() == 0,
            self@.events.contains_key(*event_id) ==> {
                let keep = |e: EventView| e.id != *event_id && vc_concurrent(e.clock, self@.events[*event_id].clock);
                &&& lists_some(self@, ref_views(r@), keep)
                &&& r@.len() <= max_results
                &&& r@.len() < max_results ==> lists_all(self@, ref_views(r@), keep)
            },
    {
        let ev = match self.events.get(event_id) {
            Some(e) => e,
            None => {
                return Vec::new();
            },
        };
        let sel = Selection::Concurrent(*event_id, &ev.vector_clock);
        let r = self.collect(&sel, Some(max_results));
        proof {
            assert((|e: EventView| selected(sel, e)) =~= (|e: EventView| e.id != *event_id && vc_concurrent(
                e.clock,
                self@.events[*event_id].clock,
            )));
        }
        r
    }
}


/// Whether an event still waits for finality.
pub open spec fn is_pending(e: EventView) -> bool {
    e.status == EventStatus::Pending || e.status == EventStatus::Gossiped
}

/// The statistics of a graph.
pub open spec fn stats_of(m: GraphModel) -> GraphStats {
    GraphStats {
        total_events: m.events.len() as usize,
        tip_count: m.tips.len() as usize,
        node_count: m.node_sequences.len() as usize,
        max_depth: m.max_depth,
        finalized_events: m.finalized_count,
        pending_events: m.events.dom().filter(|id: EventId| is_pending(m.events[id])).len() as usize,
    }
}

/// Total payload bytes of the events listed by `ks`.
pub open spec fn payload_sum(evs: Map<EventId, EventView>, ks: Seq<EventId>) -> int
    decreases ks.len(),
{
    if ks.len() == 0 {
        0
    } else {
        payload_sum(evs, ks.drop_last()) + evs[ks.last()].payload.len()
    }
}

/// The events after clearing the payloads of those shallower than `min_depth`.
pub open spec fn cleared_payloads(m: GraphModel, min_depth: usize) -> Map<EventId, EventView> {
    Map::new(
        |id: EventId| m.events.contains_key(id),
        |id: EventId|
            if m.depths.contains_key(id) && m.depths[id] < min_depth {
                EventView { payload: Seq::empty(), ..m.events[id] }
            } else {
                m.events[id]
            },
    )
}

/// No live event is its own ancestor.
pub open spec fn acyclic(m: GraphModel) -> bool {
    forall|x: EventId| #[trigger] m.events.contains_key(x) ==> !is_ancestor(m, x, x)
}

/// A position of `x` in `v`.
spec fn pos_of(v: Seq<EventId>, x: EventId) -> int {
    choose|i: int| 0 <= i < v.len() && v[i] == x
}

proof fn lemma_topo_edge(m: GraphModel, v: Seq<EventId>, a: EventId, p: EventId)
    requires
        is_topological(m, None, v),
        parent_edge(m, a, p),
        m.events.contains_key(p),
    ensures
        0 <= pos_of(v, p) < pos_of(v, a) < v.len(),
{
    assert(in_scope(m, None, a));
    assert(v.contains(a));
    let i = pos_of(v, a);
    assert(0 <= i < v.len() && v[i] == a);
    assert(in_scope(m, None, p));
    assert(parent_set(m.events[v[i]]).contains(p));
    let j = choose|j: int| 0 <= j < i && v[j] == p;
    let jp = pos_of(v, p);
    assert(v.contains(p));
    assert(0 <= jp < v.len() && v[jp] == p);
    assert(jp == j);
}

proof fn lemma_path_descends(m: GraphModel, v: Seq<EventId>, p: Seq<EventId>, k: int)
    requires
        is_topological(m, None, v),
        is_parent_path(m, p),
        1 <= k < p.len(),
        m.events.contains_key(p[k]),
    ensures
        pos_of(v, p[k]) < pos_of(v, p[0]),
    decreases k,
{
    let i = k - 1;
    assert(parent_edge(m, p[i], p[i + 1]));
    assert(p[i + 1] == p[k]);
    lemma_topo_edge(m, v, p[k - 1], p[k]);
    if k > 1 {
        lemma_path_descends(m, v, p, k - 1);
    }
}

/// Order law: a graph whose live events have a topological order has no
/// live event that is its own ancestor.
pub proof fn lemma_topological_acyclic(m: GraphModel, v: Seq<EventId>)
    requires
        is_topological(m, None, v),
    ensures
        acyclic(m),
{
    assert forall|x: EventId| #[trigger] m.events.contains_key(x) implies !is_ancestor(m, x, x) by {
        if is_ancestor(m, x, x) {
            let p = choose|p: Seq<EventId>| #[trigger] is_parent_path(m, p) && p[0] == x && p.last() == x;
            lemma_path_descends(m, v, p, p.len() - 1);
        }
    }
}

/// Ancestry law: an ancestor of an ancestor is an ancestor.
pub proof fn lemma_ancestor_transitive(m: GraphModel, a: EventId, b: EventId, c: EventId)
    requires
        is_ancestor(m, a, b),
        is_ancestor(m, b, c),
    ensures
        is_ancestor(m, a, c),
{
    let p1 = choose|p: Seq<EventId>| #[trigger] is_parent_path(m, p) && p[0] == a && p.last() == b;
    let p2 = choose|p: Seq<EventId>| #[trigger] is_parent_path(m, p) && p[0] == b && p.last() == c;
    let q = p1 + p2.subrange(1, p2.len() as int);
    assert forall|i: int| 0 <= i < q.len() - 1 implies #[trigger] parent_edge(m, q[i], q[i + 1]) by {
        if i < p1.len() - 1 {
            assert(parent_edge(m, p1[i], p1[i + 1]));
        } else if i == p1.len() - 1 {
            let z: int = 0;
            assert(parent_edge(m, p2[z], p2[z + 1]));
            assert(q[i] == p2[z] && q[i + 1] == p2[z + 1]);
        } else {
            let j = i - p1.len() + 1;
            assert(q[i] == p2[j] && q[i + 1] == p2[j + 1]);
            assert(parent_edge(m, p2[j], p2[j + 1]));
        }
    }
    assert(is_parent_path(m, q));
    assert(q.last() == c);
}

/// Ancestry law: in a graph without cycles no event is its own ancestor.
pub proof fn lemma_ancestor_irreflexive(m: GraphModel, x: EventId)
    requires
        acyclic(m),
    ensures
        !is_ancestor(m, x, x),
{
    if is_ancestor(m, x, x) {
        let p = choose|p: Seq<EventId>| #[trigger] is_parent_path(m, p) && p[0] == x && p.last() == x;
        let z: int = 0;
        assert(parent_edge(m, p[z], p[z + 1]));
        assert(m.events.contains_key(x));
    }
}

/// Ancestry law: in a graph without cycles two events are never each
/// other's ancestors.
pub proof fn lemma_ancestor_antisymmetric(m: GraphModel, a: EventId, b: EventId)
    requires
        acyclic(m),
        is_ancestor(m, a, b),
    ensures
        !is_ancestor(m, b, a),
{
    if is_ancestor(m, b, a) {
        lemma_ancestor_transitive(m, a, b, a);
        lemma_ancestor_irreflexive(m, a);
    }
}

/// Some live event names `id` as a parent.
pub open spec fn names_as_parent(m: GraphModel, id: EventId) -> bool {
    exists|x: EventId| #[trigger] parent_edge(m, x, id)
}

/// Each live parent of a live event has a smaller recorded depth.
pub open spec fn depth_ordered(m: GraphModel) -> bool {
    forall|x: EventId, p: EventId| #[trigger] parent_edge(m, x, p) && m.events.contains_key(p) ==> depth_of(m, p) < depth_of(m, x)
}

/// What `verify_integrity` accepts, with depths that fall along parent
/// edges (so without cycles).
pub open spec fn graph_sound(m: GraphModel) -> bool {
    integrity_holds(m) && depth_ordered(m)
}

/// `e` goes into `m` under an id not in use: it is not live, no live event
/// names it as a parent, and it carries the id its content hashes to.
pub open spec fn fresh_for(m: GraphModel, e: EventView) -> bool {
    &&& !m.events.contains_key(e.id)
    &&& !names_as_parent(m, e.id)
    &&& e.id == event_hash(e)
    &&& e.payload.len() <= u64::MAX
}

proof fn lemma_path_depth_falls(m: GraphModel, p: Seq<EventId>, k: int)
    requires
        depth_ordered(m),
        is_parent_path(m, p),
        1 <= k < p.len(),
        m.events.contains_key(p[k]),
    ensures
        depth_of(m, p[k]) < depth_of(m, p[0]),
    decreases k,
{
    let i = k - 1;
    assert(parent_edge(m, p[i], p[i + 1]));
    assert(p[i + 1] == p[k]);
    if k > 1 {
        lemma_path_depth_falls(m, p, k - 1);
    }
}

/// Order law: depths that fall along parent edges leave no cycle.
pub proof fn lemma_depth_ordered_acyclic(m: GraphModel)
    requires
        depth_ordered(m),
    ensures
        acyclic(m),
{
    assert forall|x: EventId| #[trigger] m.events.contains_key(x) implies !is_ancestor(m, x, x) by {
        if is_ancestor(m, x, x) {
            let p = choose|p: Seq<EventId>| #[trigger] is_parent_path(m, p) && p[0] == x && p.last() == x;
            lemma_path_depth_falls(m, p, p.len() - 1);
        }
    }
}

/// The empty graph is sound.
pub proof fn lemma_empty_graph_sound()
    ensures
        graph_sound(empty_graph()),
{
}

/// Insertion law: one step of the structural insertion of a fresh event
/// keeps the graph sound, and so without cycles.
pub proof fn lemma_insert_step_keeps_sound(
    m1: GraphModel,
    e: EventView,
    m2: GraphModel,
    ids1: Seq<EventId>,
    ids2: Seq<EventId>,
)
    requires
        insert_step(m1, e, m2, ids1, ids2),
        graph_sound(m1),
        fresh_for(m1, e),
    ensures
        graph_sound(m2),
        acyclic(m2),
{
    if inner_failure(m1, e) is None {
        assert(m2.events == m1.events.insert(e.id, e));
        assert(m2.depths == m1.depths.insert(e.id, new_depth(m1, e) as usize));
        assert(m2.pruned == m1.pruned);
        assert forall|p: EventId| #[trigger] parent_set(e).contains(p) implies m1.events.contains_key(p) && p != e.id
            && depth_of(m1, p) < new_depth(m1, e) by {
            if e.self_parent == Some(p) {
                assert(parent_failure(m1, e, e.self_parent, true) is None);
            } else {
                assert(e.other_parent == Some(p));
                assert(parent_failure(m1, e, e.other_parent, false) is None);
            }
        }
        assert forall|x: EventId, p: EventId| #[trigger] parent_edge(m2, x, p) && m2.events.contains_key(p) implies depth_of(
            m2,
            p,
        ) < depth_of(m2, x) by {
            if x == e.id {
                assert(parent_set(e).contains(p));
            } else {
                assert(m2.events[x] == m1.events[x]);
                assert(parent_edge(m1, x, p));
                if p == e.id {
                    assert(names_as_parent(m1, e.id));
                }
            }
        }
        assert forall|id: EventId| #[trigger] m2.events.contains_key(id) implies {
            &&& forall|p: EventId| #[trigger] parent_set(m2.events[id]).contains(p) ==> m2.events.contains_key(p) || m2.pruned.contains_key(p)
            &&& m2.events[id].payload.len() <= u64::MAX
            &&& m2.events[id].id == event_hash(m2.events[id])
        } by {
            if id != e.id {
                assert(m1.events.contains_key(id));
                assert(m2.events[id] == m1.events[id]);
            }
        }
    }
    lemma_depth_ordered_acyclic(m2);
}

/// Insertion law over a run: inserting fresh events one after another
/// keeps the graph sound.
pub proof fn lemma_insert_trace_keeps_sound(evs: Seq<EventView>, states: Seq<GraphModel>, idss: Seq<Seq<EventId>>)
    requires
        insert_trace(evs, states, idss),
        graph_sound(states[0]),
        forall|i: int| 0 <= i < evs.len() ==> #[trigger] fresh_for(states[i], evs[i]),
    ensures
        forall|i: int| 0 <= i < states.len() ==> #[trigger] graph_sound(states[i]),
        acyclic(states.last()),
{
    assert forall|i: int| 0 <= i < states.len() implies #[trigger] graph_sound(states[i]) by {
        lemma_trace_prefix_sound(evs, states, idss, i);
    }
    assert(graph_sound(states[states.len() - 1]));
    lemma_depth_ordered_acyclic(states.last());
}

/// Every buffered successor of `e`'s creator that the drain after `e`
/// takes in is fresh when its turn comes.
pub open spec fn drain_fresh(m1: GraphModel, e: EventView) -> bool {
    let c = e.creator;
    count_at(m1.node_sequences, c) == u64::MAX || {
        let k = (count_at(m1.node_sequences, c) + 1) as u64;
        let run = run_from(buffer_of(m1.buffer, c), k);
        forall|states: Seq<GraphModel>, idss: Seq<Seq<EventId>>|
            #[trigger] insert_trace(run, states, idss) && states[0] == (GraphModel { buffer: drained_buffer(m1.buffer, c, k), ..m1 })
                ==> forall|i: int| 0 <= i < run.len() ==> #[trigger] fresh_for(states[i], run[i])
    }
}

/// Insertion law for `insert`: when the event and each buffered successor
/// drained after it are fresh, the graph stays sound, and so passes
/// `verify_integrity` and has no cycle.
pub proof fn lemma_insert_keeps_sound(m0: GraphModel, e: EventView, m1: GraphModel, m2: GraphModel, ids: Seq<EventId>)
    requires
        insert_step(m0, e, m1, Seq::empty(), seq![e.id]),
        drained_after(m1, e, m2, ids),
        graph_sound(m0),
        fresh_for(m0, e),
        drain_fresh(m1, e),
    ensures
        graph_sound(m2),
        integrity_holds(m2),
        acyclic(m2),
{
    lemma_insert_step_keeps_sound(m0, e, m1, Seq::empty(), seq![e.id]);
    let c = e.creator;
    if count_at(m1.node_sequences, c) != u64::MAX {
        let k = (count_at(m1.node_sequences, c) + 1) as u64;
        let run = run_from(buffer_of(m1.buffer, c), k);
        let (states, idss) = choose|states: Seq<GraphModel>, idss: Seq<Seq<EventId>>|
            #[trigger] insert_trace(run, states, idss) && states[0] == (GraphModel {
                buffer: drained_buffer(m1.buffer, c, k),
                ..m1
            }) && idss[0] == seq![e.id] && states.last() == m2 && idss.last() == ids;
        let s0 = states[0];
        assert(s0.events == m1.events && s0.depths == m1.depths && s0.pruned == m1.pruned);
        assert forall|x: EventId, p: EventId| #[trigger] parent_edge(s0, x, p) && s0.events.contains_key(p) implies depth_of(
            s0,
            p,
        ) < depth_of(s0, x) by {
            assert(parent_edge(m1, x, p));
        }
        assert(graph_sound(s0));
        lemma_insert_trace_keeps_sound(run, states, idss);
        assert(graph_sound(states[states.len() - 1]));
    }
    lemma_depth_ordered_acyclic(m2);
}

/// Finalization law: marking a live event finalized, with or without a
/// round, keeps the graph sound.
pub proof fn lemma_finalize_keeps_sound(m: GraphModel, id: EventId, rounds: Map<EventId, u64>)
    requires
        graph_sound(m),
        m.events.contains_key(id),
    ensures
        graph_sound(finalized_model(m, id)),
        graph_sound(GraphModel { finalized_rounds: rounds, ..finalized_model(m, id) }),
{
    let m2 = finalized_model(m, id);
    assert(m2.events.dom() == m.events.dom());
    assert forall|x: EventId| #[trigger] m2.events.contains_key(x) implies parent_set(m2.events[x]) == parent_set(m.events[x])
        && m2.events[x].payload == m.events[x].payload && event_hash(m2.events[x]) == event_hash(m.events[x])
        && m2.events[x].id == m.events[x].id by {
        if x == id {
            assert(parent_set(m2.events[x]) =~= parent_set(m.events[x]));
        }
    }
    assert forall|x: EventId, p: EventId| #[trigger] parent_edge(m2, x, p) && m2.events.contains_key(p) implies depth_of(
        m2,
        p,
    ) < depth_of(m2, x) by {
        assert(parent_edge(m, x, p));
    }
    let m3 = GraphModel { finalized_rounds: rounds, ..m2 };
    assert forall|x: EventId, p: EventId| #[trigger] parent_edge(m3, x, p) && m3.events.contains_key(p) implies depth_of(
        m3,
        p,
    ) < depth_of(m3, x) by {
        assert(parent_edge(m, x, p));
    }
}

/// The structural insertion of `e` into `m0`, whatever it leads to, leaves
/// the drain after it taking in only fresh events.
pub open spec fn insert_drain_fresh(m0: GraphModel, e: EventView) -> bool {
    forall|m1: GraphModel| #[trigger] insert_step(m0, e, m1, Seq::empty(), seq![e.id]) ==> drain_fresh(m1, e)
}

/// A graph with the same events, depths and pruned records as a sound one
/// is sound.
pub proof fn lemma_same_graph_sound(m0: GraphModel, m2: GraphModel)
    requires
        graph_sound(m0),
        m2.events == m0.events,
        m2.depths == m0.depths,
        m2.pruned == m0.pruned,
    ensures
        graph_sound(m2),
{
    assert forall|x: EventId, p: EventId| #[trigger] parent_edge(m2, x, p) && m2.events.contains_key(p) implies depth_of(
        m2,
        p,
    ) < depth_of(m2, x) by {
        assert(parent_edge(m0, x, p));
    }
}

/// A sound graph passes `verify_integrity`: its events are intact and it
/// has no cycle.
pub proof fn lemma_sound_graph_passes_integrity(m: GraphModel)
    requires
        graph_sound(m),
    ensures
        integrity_holds(m),
        acyclic(m),
{
    lemma_depth_ordered_acyclic(m);
}

proof fn lemma_trace_prefix_sound(evs: Seq<EventView>, states: Seq<GraphModel>, idss: Seq<Seq<EventId>>, i: int)
    requires
        insert_trace(evs, states, idss),
        graph_sound(states[0]),
        forall|j: int| 0 <= j < evs.len() ==> #[trigger] fresh_for(states[j], evs[j]),
        0 <= i < states.len(),
    ensures
        graph_sound(states[i]),
    decreases i,
{
    if i > 0 {
        lemma_trace_prefix_sound(evs, states, idss, i - 1);
        let j = i - 1;
        assert(insert_step(states[j], evs[j], states[j + 1], idss[j], idss[j + 1]));
        assert(fresh_for(states[j], evs[j]));
        lemma_insert_step_keeps_sound(states[j], evs[j], states[j + 1], idss[j], idss[j + 1]);
    }
}

/// Every live event names existing (live or pruned) parents and carries the
/// id its content hashes to.
pub open spec fn integrity_holds(m: GraphModel) -> bool {
    forall|id: EventId| #[trigger] m.events.contains_key(id) ==> {
        &&& forall|p: EventId| #[trigger] parent_set(m.events[id]).contains(p) ==> m.events.contains_key(p) || m.pruned.contains_key(p)
        &&& m.events[id].payload.len() <= u64::MAX
        &&& m.events[id].id == event_hash(m.events[id])
    }
}

impl CausalGraph {
    /// Statistics: counts of events, tips, creators, the largest depth,
    /// finalized and pending (pending or gossiped) events.
    pub fn stats(&self) -> (r: GraphStats)
        requires
            self.wf(),
        ensures
            r == stats_of(self@),
    {
        proof {
            self.events.lemma_entries();
            self.tips.lemma_entries();
            self.node_sequences.lemma_entries();
        }
        let n = self.events.len();
        let ghost pred = |id: EventId| is_pending(self@.events[id]);
        let ghost mut counted: Set<EventId> = Set::empty();
        let mut pending: usize = 0;
        let mut i: usize = 0;
        while i < n
            invariant
                self.wf(),
                n == self.events.entry_seq().len(),
                i <= n,
                pred == (|id: EventId| is_pending(self@.events[id])),
                counted.finite(),
                pending == counted.len(),
                counted.len() <= i,
                forall|x: EventId| #[trigger] counted.contains(x) <==> exists|j: int| 0 <= j < i && #[trigger] self.events.entry_seq()[j].0 == x && pred(x),
            decreases n - i,
        {
            proof {
                self.events.lemma_entries();
            }
            let id = self.events.key_at(i);
            let ev = self.events.value_at(i);
            proof {
                assert(self.events@.contains_key(*id));
                assert(self@.events[*id] == ev@);
            }
            if ev.status == EventStatus::Pending || ev.status == EventStatus::Gossiped {
                proof {
                    assert(!counted.contains(*id)) by {
                        if counted.contains(*id) {
                            let j = choose|j: int| 0 <= j < i && #[trigger] self.events.entry_seq()[j].0 == *id && pred(*id);
                            assert(self.events.entry_seq()[j].0 != self.events.entry_seq()[i as int].0);
                        }
                    }
                    let c0 = counted;
                    counted = counted.insert(*id);
                    assert forall|x: EventId| #[trigger] counted.contains(x) <==> exists|j: int| 0 <= j < i + 1 && #[trigger] self.events.entry_seq()[j].0 == x && pred(x) by {
                        if x == *id {
                            assert(self.events.entry_seq()[i as int].0 == x);
                        } else if exists|j: int| 0 <= j < i + 1 && #[trigger] self.events.entry_seq()[j].0 == x && pred(x) {
                            let j = choose|j: int| 0 <= j < i + 1 && #[trigger] self.events.entry_seq()[j].0 == x && pred(x);
                            assert(j != i);
                            assert(c0.contains(x));
                        }
                    }
                }
                pending = pending + 1;
            } else {
                proof {
                    assert forall|x: EventId| #[trigger] counted.contains(x) <==> exists|j: int| 0 <= j < i + 1 && #[trigger] self.events.entry_seq()[j].0 == x && pred(x) by {
                        if exists|j: int| 0 <= j < i + 1 && #[trigger] self.events.entry_seq()[j].0 == x && pred(x) {
                            let j = choose|j: int| 0 <= j < i + 1 && #[trigger] self.events.entry_seq()[j].0 == x && pred(x);
                            if j == i {
                                assert(!pred(x));
                            }
                        }
                    }
                }
            }
            i = i + 1;
        }
        proof {
            self.events.lemma_entries();
            assert forall|x: EventId| #[trigger] counted.contains(x) <==> self@.events.dom().filter(pred).contains(x) by {
                if self@.events.dom().filter(pred).contains(x) {
                    assert(self.events@.contains_key(x));
                    let j = choose|j: int| 0 <= j < self.events.entry_seq().len() && #[trigger] self.events.entry_seq()[j].0 == x;
                }
            }
            assert(counted =~= self@.events.dom().filter(pred));
            assert(self@.events.dom() =~= self.events@.dom());
            assert(self@.tips =~= self.tips@.dom());
        }
        GraphStats {
            total_events: n,
            tip_count: self.tips.len(),
            node_count: self.node_sequences.len(),
            max_depth: self.max_depth,
            finalized_events: self.finalized_count,
            pending_events: pending,
        }
    }

    /// The live events created by `node_id`, in insertion order.
    pub fn by_creator(&self, node_id: &NodeId) -> (r: Vec<&Event>)
        requires
            self.wf(),
        ensures
            ref_views(r@).map_values(|e: EventView| e.id) == seq_at(self@.by_creator, *node_id).filter(
                |id: EventId| self@.events.contains_key(id),
            ),
            forall|i: int| 0 <= i < r@.len() ==> #[trigger] self@.events[r@[i].id] == r@[i]@,
    {
        let ghost live = |id: EventId| self@.events.contains_key(id);
        let mut r: Vec<&Event> = Vec::new();
        match self.by_creator.get(node_id) {
            None => {
                proof {
                    reveal(Seq::filter);
                    assert(ref_views(r@).map_values(|e: EventView| e.id) =~= seq_at(self@.by_creator, *node_id).filter(live));
                }
                r
            },
            Some(ids) => {
                let mut i: usize = 0;
                while i < ids.len()
                    invariant
                        self.wf(),
                        live == (|id: EventId| self@.events.contains_key(id)),
                        i <= ids@.len(),
                        ref_views(r@).map_values(|e: EventView| e.id) == ids@.take(i as int).filter(live),
                        forall|q: int| 0 <= q < r@.len() ==> #[trigger] self@.events[r@[q].id] == r@[q]@,
                    decreases ids@.len() - i,
                {
                    proof {
                        assert(ids@.take(i + 1).drop_last() =~= ids@.take(i as int));
                        assert(ids@.take(i + 1).last() == ids@[i as int]);
                        reveal(Seq::filter);
                    }
                    let ghost r0 = r@;
                    match self.events.get(&ids[i]) {
                        Some(ev) => {
                            r.push(ev);
                            proof {
                                assert(ev@.id == ids@[i as int]);
                                assert(ref_views(r@).map_values(|e: EventView| e.id) =~= ref_views(r0).map_values(|e: EventView| e.id).push(ids@[i as int]));
                                assert(self@.events[ev.id] == ev@);
                                assert forall|q: int| 0 <= q < r@.len() implies #[trigger] self@.events[r@[q].id] == r@[q]@ by {
                                    if q < r0.len() {
                                        assert(r@[q] == r0[q]);
                                        assert(self@.events[r0[q].id] == r0[q]@);
                                    } else {
                                        assert(r@[q] == ev);
                                    }
                                }
                            }
                        },
                        None => {},
                    }
                    proof {
                        assert(ref_views(r@).map_values(|e: EventView| e.id) =~= ids@.take(i + 1).filter(live));
                    }
                    i = i + 1;
                }
                proof {
                    assert(ids@.take(ids@.len() as int) =~= ids@);
                    assert(self@.by_creator[*node_id] == ids@);
                }
                r
            },
        }
    }

    /// Number of buffered events of `creator`.
    pub fn buffered_sequence_count(&self, creator: &NodeId) -> (r: usize)
        requires
            self.wf(),
        ensures
            r == buffer_of(self@.buffer, *creator).len(),
    {
        self.seq_buffer.buffered_count(creator)
    }

    /// Number of buffered events over all creators, saturating at
    /// `usize::MAX`.
    pub fn total_buffered_events(&self) -> (r: usize)
        requires
            self.wf(),
        ensures
            exists|ks: Seq<NodeId>| #[trigger] ks.to_set() == self@.buffer.dom() && ks.no_duplicates() && r == sat_usize(
                buffered_sum(self@.buffer, ks),
            ),
    {
        self.seq_buffer.total_buffered()
    }

    /// Total payload bytes of the live events, saturating at `usize::MAX`.
    pub fn payload_size(&self) -> (r: usize)
        requires
            self.wf(),
        ensures
            exists|ks: Seq<EventId>| #[trigger] ks.to_set() == self@.events.dom() && ks.no_duplicates() && (if payload_sum(self@.events, ks) <= usize::MAX {
                r == payload_sum(self@.events, ks)
            } else {
                r == usize::MAX
            }),
    {
        proof {
            self.events.lemma_entries();
        }
        let n = self.events.len();
        let ghost ks = self.events.key_seq();
        let mut total: usize = 0;
        let mut i: usize = 0;
        while i < n
            invariant
                self.wf(),
                n == self.events.entry_seq().len(),
                ks == self.events.key_seq(),
                i <= n,
                payload_sum(self@.events, ks.take(i as int)) <= usize::MAX ==> total == payload_sum(self@.events, ks.take(i as int)),
                payload_sum(self@.events, ks.take(i as int)) > usize::MAX ==> total == usize::MAX,
                payload_sum(self@.events, ks.take(i as int)) >= 0,
            decreases n - i,
        {
            proof {
                self.events.lemma_entries();
                assert(ks.take(i + 1).drop_last() =~= ks.take(i as int));
                assert(ks.take(i + 1).last() == ks[i as int]);
                assert(self.events@.contains_key(ks[i as int]));
            }
            let len = self.events.value_at(i).payload.len();
            total = total.saturating_add(len);
            i = i + 1;
        }
        proof {
            self.events.lemma_entries();
            assert(ks.take(n as int) =~= ks);
            assert(ks.to_set() =~= self@.events.dom());
            assert forall|a: int, b: int| 0 <= a < ks.len() && 0 <= b < ks.len() && a != b implies ks[a] != ks[b] by {
                assert(ks[a] == self.events.entry_seq()[a].0);
                assert(ks[b] == self.events.entry_seq()[b].0);
            }
        }
        total
    }

    /// Clear the payload of every live event shallower than `min_depth`;
    /// the events themselves stay.
    pub fn clear_old_payloads(&mut self, min_depth: usize)
        requires
            old(self).wf(),
        ensures
            final(self).wf(),
            final(self)@ == (GraphModel { events: cleared_payloads(old(self)@, min_depth), ..old(self)@ }),
    {
        let ghost m = self@;
        proof {
            self.depths.lemma_entries();
        }
        let n = self.depths.len();
        let mut i: usize = 0;
        while i < n
            invariant
                self.wf(),
                n == self.depths.entry_seq().len(),
                self.depths@ == m.depths,
                i <= n,
                self@ == (GraphModel { events: self@.events, ..m }),
                self@.events.dom() == m.events.dom(),
                forall|id: EventId| #[trigger] self@.events.contains_key(id) ==> self@.events[id] == (
                    if m.depths.contains_key(id) && m.depths[id] < min_depth && exists|j: int| 0 <= j < i && #[trigger] self.depths.entry_seq()[j].0 == id {
                        EventView { payload: Seq::empty(), ..m.events[id] }
                    } else {
                        m.events[id]
                    }),
            decreases n - i,
        {
            proof {
                self.depths.lemma_entries();
            }
            let id = *self.depths.key_at(i);
            let d = *self.depths.value_at(i);
            proof {
                assert(self.depths@.contains_key(id));
                assert(m.depths[id] == d);
            }
            let ghost before = self@;
            let ghost before_raw = self.events@;
            if d < min_depth {
                match self.events.remove(&id) {
                    Some(mut ev) => {
                        ev.payload = Vec::new();
                        self.events.insert(id, ev);
                        proof {
                            assert(self.events@ =~= before_raw.insert(id, ev));
                        }
                    },
                    None => {
                        proof {
                            assert(self.events@ =~= before_raw);
                        }
                    },
                }
            }
            proof {
                assert(self@.events.dom() =~= m.events.dom());
                assert forall|x: EventId| #[trigger] self@.events.contains_key(x) implies self@.events[x] == (
                    if m.depths.contains_key(x) && m.depths[x] < min_depth && exists|j: int| 0 <= j < i + 1 && #[trigger] self.depths.entry_seq()[j].0 == x {
                        EventView { payload: Seq::empty(), ..m.events[x] }
                    } else {
                        m.events[x]
                    }) by {
                    if x == id {
                        assert(self.depths.entry_seq()[i as int].0 == x);
                    } else {
                        if exists|j: int| 0 <= j < i + 1 && #[trigger] self.depths.entry_seq()[j].0 == x {
                            let j = choose|j: int| 0 <= j < i + 1 && #[trigger] self.depths.entry_seq()[j].0 == x;
                            assert(j != i);
                        }
                    }
                }
            }
            i = i + 1;
        }
        proof {
            self.depths.lemma_entries();
            assert forall|x: EventId| #[trigger] self@.events.contains_key(x) implies self@.events[x] == cleared_payloads(m, min_depth)[x] by {
                if m.depths.contains_key(x) {
                    let j = choose|j: int| 0 <= j < self.depths.entry_seq().len() && #[trigger] self.depths.entry_seq()[j].0 == x;
                }
            }
            assert(self@.events =~= cleared_payloads(m, min_depth));
        }
    }

    /// Whether an id is live or pruned.
    fn parent_exists(&self, id: &EventId) -> (r: bool)
        requires
            self.wf(),
        ensures
            r == (self@.events.contains_key(*id) || self@.pruned.contains_key(*id)),
    {
        self.events.contains_key(id) || self.pruned_events.contains_key(id)
    }
}


/// The message text for an integrity failure naming an event.
fn integrity_message(prefix: &str, id: &EventId, suffix: &str) -> (r: String)
    ensures
        r@ == prefix@ + short_id(*id) + suffix@,
{
    let mut s = String::from_str(prefix);
    let h = short_hex(id);
    s.append(h.as_str());
    s.append(suffix);
    s
}

impl CausalGraph {
    /// Check the graph: every live event names existing (live or pruned)
    /// parents and carries the id its content hashes to, and no live event is
    /// its own ancestor. Every failure is an `IntegrityError`.
    pub fn verify_integrity(&self) -> (r: Result<(), CausalGraphError>)
        requires
            self.wf(),
        ensures
            r is Ok <==> integrity_holds(self@) && acyclic(self@),
            r matches Err(e) ==> e is IntegrityError,
    {
        proof {
            self.events.lemma_entries();
        }
        let n = self.events.len();
        let mut i: usize = 0;
        while i < n
            invariant
                self.wf(),
                n == self.events.entry_seq().len(),
                i <= n,
                forall|j: int| 0 <= j < i ==> {
                    let id = #[trigger] self.events.entry_seq()[j].0;
                    &&& forall|p: EventId| #[trigger] parent_set(self@.events[id]).contains(p) ==> self@.events.contains_key(p) || self@.pruned.contains_key(p)
                    &&& self@.events[id].payload.len() <= u64::MAX
                    &&& self@.events[id].id == event_hash(self@.events[id])
                },
            decreases n - i,
        {
            proof {
                self.events.lemma_entries();
            }
            let id = self.events.key_at(i);
            let ev = self.events.value_at(i);
            proof {
                assert(self.events@.contains_key(*id));
                assert(self@.events[*id] == ev@);
            }
            match ev.self_parent {
                Some(sp) => {
                    if !self.parent_exists(&sp) {
                        proof {
                            assert(parent_set(self@.events[*id]).contains(sp));
                            assert(!integrity_holds(self@)) by {
                                if integrity_holds(self@) {
                                    assert(self@.events.contains_key(*id));
                                }
                            }
                        }
                        return Err(CausalGraphError::IntegrityError(integrity_message("event ", id, " has a dangling self-parent")));
                    }
                },
                None => {},
            }
            match ev.other_parent {
                Some(op) => {
                    if !self.parent_exists(&op) {
                        proof {
                            assert(parent_set(self@.events[*id]).contains(op));
                            assert(!integrity_holds(self@)) by {
                                if integrity_holds(self@) {
                                    assert(self@.events.contains_key(*id));
                                }
                            }
                        }
                        return Err(CausalGraphError::IntegrityError(integrity_message("event ", id, " has a dangling other-parent")));
                    }
                },
                None => {},
            }
            if !ev.verify_hash() {
                proof {
                    assert(!integrity_holds(self@)) by {
                        if integrity_holds(self@) {
                            assert(self@.events.contains_key(*id));
                        }
                    }
                }
                return Err(CausalGraphError::IntegrityError(integrity_message("event ", id, " has an invalid hash")));
            }
            i = i + 1;
        }
        proof {
            self.events.lemma_entries();
            assert forall|id: EventId| #[trigger] self@.events.contains_key(id) implies {
                &&& forall|p: EventId| #[trigger] parent_set(self@.events[id]).contains(p) ==> self@.events.contains_key(p) || self@.pruned.contains_key(p)
                &&& self@.events[id].payload.len() <= u64::MAX
                &&& self@.events[id].id == event_hash(self@.events[id])
            } by {
                assert(self.events@.contains_key(id));
                let j = choose|j: int| 0 <= j < self.events.entry_seq().len() && #[trigger] self.events.entry_seq()[j].0 == id;
            }
        }
        let (rel, scope) = self.scope_listing(None);
        match self.kahn_order(&rel, &scope, Ghost(None)) {
            Ok(v) => {
                proof {
                    lemma_topological_acyclic(self@, v@);
                }
                Ok(())
            },
            Err(_) => {
                proof {
                    let y = choose|y: EventId| #[trigger] in_scope(self@, None, y) && is_ancestor(self@, y, y);
                    assert(self@.events.contains_key(y));
                }
                Err(CausalGraphError::IntegrityError(String::from_str("cycle found in graph")))
            },
        }
    }

    /// The finalized live events in topological order (parents first).
    /// Fails as `topological_order` over all events does.
    pub fn finalized_order(&self) -> (r: Result<Vec<&Event>, CausalGraphError>)
        requires
            self.wf(),
        ensures
            r matches Ok(v) ==> exists|t: Seq<EventId>| #[trigger] is_topological(self@, None, t) && largest_ready_first(self@, None, t) && ref_views(v@).map_values(
                |e: EventView| e.id,
            ) == t.filter(|id: EventId| self@.events[id].status == EventStatus::Finalized) && forall|i: int|
                0 <= i < v@.len() ==> #[trigger] self@.events[v@[i].id] == v@[i]@,
            r matches Err(err) ==> (err matches CausalGraphError::EventPruned(s) && exists|id: EventId, p: EventId|
                #[trigger] pruned_parent(self@, id, p) && in_scope(self@, None, id) && s@ == short_id(p)) || err is CycleDetected,
            (r matches Err(err) && err is CycleDetected) ==> exists|y: EventId| #[trigger] in_scope(self@, None, y)
                && is_ancestor(self@, y, y),
            (forall|id: EventId, p: EventId| #[trigger] pruned_parent(self@, id, p) ==> !in_scope(self@, None, id))
                ==> !(r matches Err(err) && err is EventPruned),
    {
        let order = match self.topological_order(None) {
            Ok(o) => o,
            Err(e) => {
                return Err(e);
            },
        };
        let ghost fin = |id: EventId| self@.events[id].status == EventStatus::Finalized;
        let mut r: Vec<&Event> = Vec::new();
        let mut i: usize = 0;
        while i < order.len()
            invariant
                self.wf(),
                is_topological(self@, None, order@),
                fin == (|id: EventId| self@.events[id].status == EventStatus::Finalized),
                i <= order@.len(),
                ref_views(r@).map_values(|e: EventView| e.id) == order@.take(i as int).filter(fin),
                forall|q: int| 0 <= q < r@.len() ==> #[trigger] self@.events[r@[q].id] == r@[q]@,
            decreases order@.len() - i,
        {
            proof {
                assert(order@.take(i + 1).drop_last() =~= order@.take(i as int));
                assert(order@.take(i + 1).last() == order@[i as int]);
                reveal(Seq::filter);
                assert(order@.contains(order@[i as int]));
            }
            let ghost r0 = r@;
            match self.events.get(&order[i]) {
                Some(ev) => {
                    if ev.status == EventStatus::Finalized {
                        r.push(ev);
                        proof {
                            assert(ev@.id == order@[i as int]);
                            assert(ref_views(r@).map_values(|e: EventView| e.id) =~= ref_views(r0).map_values(|e: EventView| e.id).push(order@[i as int]));
                            assert(self@.events[ev.id] == ev@);
                            assert forall|q: int| 0 <= q < r@.len() implies #[trigger] self@.events[r@[q].id] == r@[q]@ by {
                                if q < r0.len() {
                                    assert(r@[q] == r0[q]);
                                    assert(self@.events[r0[q].id] == r0[q]@);
                                } else {
                                    assert(r@[q] == ev);
                                }
                            }
                        }
                    }
                },
                None => {},
            }
            proof {
                assert(ref_views(r@).map_values(|e: EventView| e.id) =~= order@.take(i + 1).filter(fin));
            }
            i = i + 1;
        }
        proof {
            assert(order@.take(order@.len() as int) =~= order@);
        }
        Ok(r)
    }
}

impl Default for CausalGraph {
    fn default() -> (r: CausalGraph)
        ensures
            r.wf(),
            r@ == empty_graph(),
    {
        CausalGraph::new()
    }
}

} // verus!

verus! {

impl CausalGraph {
    /// The ids with a recorded depth, each once.
    pub fn depth_ids(&self) -> (r: Vec<EventId>)
        requires
            self.wf(),
        ensures
            r@.no_duplicates(),
            r@.to_set() == self@.depths.dom(),
    {
        self.depths.keys()
    }

    /// The recorded depth of `id`, if any.
    pub fn depth_of(&self, id: &EventId) -> (r: Option<usize>)
        requires
            self.wf(),
        ensures
            self@.depths.contains_key(*id) ==> r == Some(self@.depths[*id]),
            !self@.depths.contains_key(*id) ==> r is None,
    {
        match self.depths.get(id) {
            Some(d) => Some(*d),
            None => None,
        }
    }

    /// The ids with a recorded finalization round, each once.
    pub fn finalized_round_ids(&self) -> (r: Vec<EventId>)
        requires
            self.wf(),
        ensures
            r@.no_duplicates(),
            r@.to_set() == self@.finalized_rounds.dom(),
    {
        self.finalized_rounds.keys()
    }

    /// The round at which `id` was finalized, if recorded.
    pub fn finalized_round_of(&self, id: &EventId) -> (r: Option<u64>)
        requires
            self.wf(),
        ensures
            self@.finalized_rounds.contains_key(*id) ==> r == Some(self@.finalized_rounds[*id]),
            !self@.finalized_rounds.contains_key(*id) ==> r is None,
    {
        match self.finalized_rounds.get(id) {
            Some(x) => Some(*x),
            None => None,
        }
    }

    /// The ids of pruned events, each once.
    pub fn pruned_ids(&self) -> (r: Vec<EventId>)
        requires
            self.wf(),
        ensures
            r@.no_duplicates(),
            r@.to_set() == self@.pruned.dom(),
    {
        self.pruned_events.keys()
    }

    /// The creators with a recorded event list, each once.
    pub fn creators(&self) -> (r: Vec<NodeId>)
        requires
            self.wf(),
        ensures
            r@.no_duplicates(),
            r@.to_set() == self@.by_creator.dom(),
    {
        self.by_creator.keys()
    }

    /// The recorded event ids of `node_id`, in insertion order.
    pub fn creator_event_ids(&self, node_id: &NodeId) -> (r: Vec<EventId>)
        requires
            self.wf(),
        ensures
            r@ == seq_at(self@.by_creator, *node_id),
    {
        match self.by_creator.get(node_id) {
            Some(ids) => {
                let mut r: Vec<EventId> = Vec::new();
                let mut i: usize = 0;
                while i < ids.len()
                    invariant
                        i <= ids@.len(),
                        r@ == ids@.take(i as int),
                    decreases ids@.len() - i,
                {
                    r.push(ids[i]);
                    i = i + 1;
                    proof {
                        assert(r@ =~= ids@.take(i as int));
                    }
                }
                proof {
                    assert(ids@.take(ids@.len() as int) =~= ids@);
                }
                r
            },
            None => Vec::new(),
        }
    }

    /// The highest inserted sequence of every creator, in ascending id order.
    pub fn node_sequence_listing(&self) -> (r: Vec<(NodeId, u64)>)
        requires
            self.wf(),
        ensures
            crate::vector_clock::sorted_listing(r@, self@.node_sequences),
    {
        crate::vector_clock::sorted_entries(&self.node_sequences)
    }

    /// The number of finalized events.
    pub fn finalized_count(&self) -> (r: usize)
        ensures
            r == self@.finalized_count,
    {
        self.finalized_count
    }
}

} // verus!
