//! The BFT finality gadget that runs over the causal graph.
//!
//! A witness is the first event a node creates in a round; an event moves
//! to the next round when it strongly sees a supermajority of the previous
//! round's witnesses; a witness is famous when a supermajority of the
//! witnesses `commit_delay_rounds` later see it (a deterministic coin breaks
//! split votes); a famous witness and its ancestors are committed.
use vstd::prelude::*;
use std::time::Duration;
use std::time::Instant;
use crate::ids::EventId;
use crate::ids::NodeId;
use crate::ids::le_bytes_u64;
use crate::ids::push_le_u64;
use crate::crypto::append_bytes;
use crate::crypto::blake3_digest;
use crate::crypto::blake3_hash;
use crate::sys::duration_nanos;
use crate::sys::duration_from_millis;
use crate::sys::duration_half;
use crate::sys::duration_at_least;
use crate::sys::instant_now;
use crate::sys::instant_elapsed;
use crate::sys::fill_random;
use crate::sys::entropy_error_text;
use crate::slashing::SlashOffense;
use crate::slashing::SlashOutcome;
use crate::slashing::SlashingEngine;
use crate::slashing::model_slashed;
use crate::slashing::after_offense;
use crate::vec_map::VecMap;
use crate::causal_graph::CausalGraph;
use crate::causal_graph::CausalGraphError;
use crate::causal_graph::GraphModel;
use crate::causal_graph::is_ancestor;
use crate::causal_graph::traversal_error;
use crate::causal_graph::within_traversal_bounds;
use crate::causal_graph::no_pruned_reachable;
use crate::causal_graph::short_id;
use crate::event::Event;
use crate::event::EventView;
use crate::consensus_store::ConsensusState as PersistedConsensusState;
use crate::consensus_store::ConsensusStore;
use crate::consensus_store::ConsensusStoreError;

verus! {

/// Rounds of committed state kept by `cleanup_old_committed` by default.
pub const DEFAULT_COMMITTED_ROUND_THRESHOLD: u64 = 10_000;

/// Sequence distance past which a first-seen entry is stale by default.
pub const DEFAULT_SEQUENCE_CLEANUP_DISTANCE: u64 = 1_000;

/// The supermajority of `n` nodes: all of them below four, else
/// `2n/3 + 1`.
pub open spec fn supermajority_spec(n: usize) -> int {
    if n < 4 {
        n as int
    } else {
        (2 * n) / 3 + 1
    }
}

/// The number of votes that makes a supermajority of `total_nodes`: all of
/// them for fewer than four nodes, else `2n/3 + 1`.
pub fn supermajority(total_nodes: usize) -> (r: usize)
    ensures
        r == supermajority_spec(total_nodes),
{
    if total_nodes < 4 {
        total_nodes
    } else {
        let q = total_nodes / 3;
        let rem = total_nodes % 3;
        proof {
            assert((2 * total_nodes) / 3 == 2 * q + (2 * rem) / 3) by (nonlinear_arith)
                requires
                    q == total_nodes / 3,
                    rem == total_nodes % 3,
            ;
        }
        2 * q + (2 * rem) / 3 + 1
    }
}

/// Supermajority law: with at least four nodes it is more than two thirds
/// of them and no more than all of them; below four it is all of them.
pub proof fn lemma_supermajority_bounds(n: usize)
    ensures
        n >= 4 ==> 3 * supermajority_spec(n) > 2 * n && supermajority_spec(n) <= n,
        n < 4 ==> supermajority_spec(n) == n,
{
}

/// The coin of a round: the low bit of the first byte of
/// BLAKE3(round little-endian || seed).
pub open spec fn coin_spec(round: u64, seed: [u8; 32]) -> bool {
    blake3_digest(le_bytes_u64(round) + seed@)[0] % 2 == 1
}

/// The deterministic coin that breaks a split fame vote.
pub fn coin_round(round_number: u64, seed: &[u8; 32]) -> (r: bool)
    ensures
        r == coin_spec(round_number, *seed),
{
    let mut buf: Vec<u8> = Vec::new();
    push_le_u64(&mut buf, round_number);
    append_bytes(&mut buf, seed);
    let h = blake3_hash(buf.as_slice());
    let b = h[0];
    proof {
        assert(buf@ =~= le_bytes_u64(round_number) + seed@);
        assert(b & 1 == 1 <==> b % 2 == 1) by (bit_vector);
    }
    b & 1 == 1
}

/// The all-zero round seed; insecure, kept for old configurations.
pub fn default_round_seed() -> (r: [u8; 32])
    ensures
        r@ == Seq::new(32, |i: int| 0u8),
{
    let r = [0u8; 32];
    proof {
        broadcast use vstd::array::group_array_axioms;

        assert(r@ =~= Seq::new(32, |i: int| 0u8));
    }
    r
}

/// Consensus configuration.
#[derive(Debug, Clone, Copy)]
pub struct ConsensusConfig {
    /// Number of consensus nodes.
    pub total_nodes: usize,
    /// Rounds between a witness and the round that decides its fame.
    pub commit_delay_rounds: u64,
    /// Whether acknowledgments confirm events optimistically.
    pub optimistic_confirmation: bool,
    /// Acknowledgments needed for optimistic confirmation.
    pub optimistic_threshold: u32,
    /// Maximum rounds to look ahead for fame.
    pub max_look_ahead: u64,
    /// Seed of leader selection and of the fame coin.
    pub round_seed: [u8; 32],
    /// Round timeout in milliseconds.
    pub round_timeout_ms: u64,
    /// Consecutive timeouts before recovery mode.
    pub max_consecutive_timeouts: u32,
    /// First-seen entries above which stale ones are cleaned up.
    pub max_sequence_entries: usize,
}

/// The configuration `with_random_seed(n)` builds, with seed `seed`.
pub open spec fn config_for(n: usize, seed: [u8; 32]) -> ConsensusConfig {
    ConsensusConfig {
        total_nodes: n,
        commit_delay_rounds: 1,
        optimistic_confirmation: true,
        optimistic_threshold: supermajority_spec(n) as u32,
        max_look_ahead: 10,
        round_seed: seed,
        round_timeout_ms: 30_000,
        max_consecutive_timeouts: 3,
        max_sequence_entries: 10_000,
    }
}

impl ConsensusConfig {
    /// A configuration for `total_nodes` nodes with a round seed from the
    /// operating system's entropy source; `EntropyFailed` when that fails.
    pub fn with_random_seed(total_nodes: usize) -> (r: Result<ConsensusConfig, ConsensusError>)
        ensures
            r matches Ok(c) ==> c == config_for(total_nodes, c.round_seed),
            r matches Err(e) ==> e is EntropyFailed,
    {
        let mut seed = [0u8; 32];
        match fill_random(&mut seed) {
            Ok(()) => {},
            Err(e) => {
                return Err(ConsensusError::EntropyFailed(entropy_error_text(&e)));
            },
        }
        let t = supermajority(total_nodes);
        Ok(
            ConsensusConfig {
                total_nodes,
                commit_delay_rounds: 1,
                optimistic_confirmation: true,
                optimistic_threshold: t as u32,
                max_look_ahead: 10,
                round_seed: seed,
                round_timeout_ms: 30_000,
                max_consecutive_timeouts: 3,
                max_sequence_entries: 10_000,
            },
        )
    }
}

impl Default for ConsensusConfig {
    /// Four nodes with a random seed; the all-zero seed only when the
    /// entropy source fails.
    fn default() -> (r: ConsensusConfig)
        ensures
            r == config_for(4, r.round_seed),
    {
        match ConsensusConfig::with_random_seed(4) {
            Ok(c) => c,
            Err(_) => ConsensusConfig {
                total_nodes: 4,
                commit_delay_rounds: 1,
                optimistic_confirmation: true,
                optimistic_threshold: 3,
                max_look_ahead: 10,
                round_seed: [0u8; 32],
                round_timeout_ms: 30_000,
                max_consecutive_timeouts: 3,
                max_sequence_entries: 10_000,
            },
        }
    }
}

/// Round timing for liveness: counts consecutive timeouts and halves the
/// timeout in recovery mode.
pub struct RoundTimer {
    /// The round being timed.
    pub round: u64,
    started_at: Instant,
    timeout: Duration,
    /// Consecutive timed-out rounds.
    pub consecutive_timeouts: u32,
    max_consecutive: u32,
}

impl RoundTimer {
    /// The round being timed.
    pub closed spec fn round_spec(&self) -> u64 {
        self.round
    }

    /// The count of consecutive timeouts.
    pub closed spec fn timeouts_spec(&self) -> u32 {
        self.consecutive_timeouts
    }

    /// The base timeout.
    pub closed spec fn base_timeout(&self) -> Duration {
        self.timeout
    }

    /// The number of consecutive timeouts that starts recovery mode.
    pub closed spec fn recovery_threshold(&self) -> u32 {
        self.max_consecutive
    }

    /// A timer for round 0 started now.
    pub fn new(timeout: Duration, max_consecutive: u32) -> (r: RoundTimer)
        ensures
            r.round_spec() == 0,
            r.timeouts_spec() == 0,
            r.base_timeout() == timeout,
            r.recovery_threshold() == max_consecutive,
    {
        RoundTimer { round: 0, started_at: instant_now(), timeout, consecutive_timeouts: 0, max_consecutive }
    }

    /// Start timing `round` now.
    pub fn start_round(&mut self, round: u64)
        ensures
            final(self).round_spec() == round,
            final(self).timeouts_spec() == old(self).timeouts_spec(),
            final(self).base_timeout() == old(self).base_timeout(),
            final(self).recovery_threshold() == old(self).recovery_threshold(),
    {
        self.round = round;
        self.started_at = instant_now();
    }

    /// Whether the round has run at least the effective timeout.
    pub fn is_timed_out(&self) -> (r: bool)
        ensures
            exists|elapsed: Duration| r == (duration_nanos(elapsed) >= self.effective_nanos()),
    {
        let elapsed = instant_elapsed(&self.started_at);
        self.is_timed_out_after(&elapsed)
    }

    /// Whether `elapsed` reaches the effective timeout.
    pub fn is_timed_out_after(&self, elapsed: &Duration) -> (r: bool)
        ensures
            r == (duration_nanos(*elapsed) >= self.effective_nanos()),
    {
        let t = self.effective_timeout();
        duration_at_least(elapsed, &t)
    }

    /// Whether the timer is in recovery mode.
    pub open spec fn in_recovery(&self) -> bool {
        self.timeouts_spec() >= self.recovery_threshold()
    }

    /// The length of the effective timeout in nanoseconds.
    pub open spec fn effective_nanos(&self) -> int {
        if self.in_recovery() {
            (duration_nanos(self.base_timeout()) / 2) as int
        } else {
            duration_nanos(self.base_timeout()) as int
        }
    }

    /// The timeout in effect: the base one, halved in recovery mode.
    pub fn effective_timeout(&self) -> (r: Duration)
        ensures
            self.in_recovery() ==> duration_nanos(r) == duration_nanos(self.base_timeout()) / 2,
            !self.in_recovery() ==> r == self.base_timeout(),
    {
        if self.consecutive_timeouts >= self.max_consecutive {
            duration_half(&self.timeout)
        } else {
            self.timeout
        }
    }

    /// A round finished in time: the consecutive-timeout count resets.
    pub fn round_succeeded(&mut self)
        ensures
            final(self).timeouts_spec() == 0,
            final(self).round_spec() == old(self).round_spec(),
            final(self).base_timeout() == old(self).base_timeout(),
            final(self).recovery_threshold() == old(self).recovery_threshold(),
    {
        self.consecutive_timeouts = 0;
    }

    /// A round timed out: count it (saturating); returns whether the timer
    /// is now in recovery mode.
    pub fn round_timed_out(&mut self) -> (r: bool)
        ensures
            final(self).timeouts_spec() == (if old(self).timeouts_spec() == u32::MAX {
                u32::MAX
            } else {
                (old(self).timeouts_spec() + 1) as u32
            }),
            final(self).round_spec() == old(self).round_spec(),
            final(self).base_timeout() == old(self).base_timeout(),
            final(self).recovery_threshold() == old(self).recovery_threshold(),
            r == final(self).in_recovery(),
    {
        self.consecutive_timeouts = self.consecutive_timeouts.saturating_add(1);
        self.consecutive_timeouts >= self.max_consecutive
    }
}

/// The consensus state of an event.
#[derive(Debug, Clone, Copy, PartialEq, Eq, Structural)]
pub enum ConsensusState {
    /// Known, not yet voted on.
    Pending,
    /// Confirmed optimistically by acknowledgments.
    Acknowledged,
    /// A witness of its round.
    Witness {
        /// The round.
        round: u64,
    },
    /// Seen by a supermajority.
    Famous,
    /// Final.
    Committed,
    /// Rejected (equivocation).
    Rejected,
}

/// A node's participation in consensus.
#[derive(Debug, Clone, Copy)]
pub struct NodeConsensusInfo {
    /// The node's current round.
    pub current_round: u64,
    /// The round from which the node's next event is a witness.
    pub last_witness_round: u64,
    /// Events created by the node.
    pub events_created: u64,
    /// Events of the node committed.
    pub events_committed: u64,
    /// The node's latest event.
    pub last_event: Option<EventId>,
}

/// A node not seen before.
pub open spec fn fresh_info() -> NodeConsensusInfo {
    NodeConsensusInfo {
        current_round: 0,
        last_witness_round: 0,
        events_created: 0,
        events_committed: 0,
        last_event: None,
    }
}

impl Default for NodeConsensusInfo {
    fn default() -> (r: NodeConsensusInfo)
        ensures
            r == fresh_info(),
    {
        NodeConsensusInfo {
            current_round: 0,
            last_witness_round: 0,
            events_created: 0,
            events_committed: 0,
            last_event: None,
        }
    }
}

/// Errors of consensus operations.
#[derive(Debug, Clone)]
pub enum ConsensusError {
    /// A causal graph operation failed.
    GraphError(String),
    /// The event is unknown.
    EventNotFound(EventId),
    /// A state transition is not allowed.
    InvalidStateTransition,
    /// Fewer than four nodes.
    InsufficientNodes(usize),
    /// The creator has been slashed.
    NodeSlashed(NodeId),
    /// The creator equivocated; the event is rejected.
    EquivocationDetected {
        /// The equivocating node.
        creator: NodeId,
        /// The rejected event.
        event_id: EventId,
    },
    /// The entropy source failed.
    EntropyFailed(String),
    /// An internal invariant was violated.
    InvariantViolated(String),
    /// An event on an ancestry path was pruned.
    EventPruned(String),
    /// A configuration or restoration error.
    Config(String),
}

/// The message of a consensus error.
pub open spec fn consensus_error_text(e: ConsensusError) -> Seq<char> {
    match e {
        ConsensusError::GraphError(m) => "Graph error: "@ + m@,
        ConsensusError::EventNotFound(_) => "Event not found"@,
        ConsensusError::InvalidStateTransition => "Invalid state transition"@,
        ConsensusError::InsufficientNodes(_) => "Not enough nodes for consensus (need at least 4)"@,
        ConsensusError::NodeSlashed(_) => "Node has been slashed"@,
        ConsensusError::EquivocationDetected { .. } => "Equivocation detected"@,
        ConsensusError::EntropyFailed(m) => "entropy generation failed: "@ + m@,
        ConsensusError::InvariantViolated(m) => "invariant violated: "@ + m@,
        ConsensusError::EventPruned(m) => "event pruned: "@ + m@,
        ConsensusError::Config(m) => "config error: "@ + m@,
    }
}

impl ConsensusError {
    /// A human-readable description.
    pub fn message(&self) -> (r: String)
        ensures
            r@ == consensus_error_text(*self),
    {
        match self {
            ConsensusError::GraphError(m) => {
                let mut s = String::from_str("Graph error: ");
                s.append(m.as_str());
                s
            },
            ConsensusError::EventNotFound(_) => String::from_str("Event not found"),
            ConsensusError::InvalidStateTransition => String::from_str("Invalid state transition"),
            ConsensusError::InsufficientNodes(_) => String::from_str(
                "Not enough nodes for consensus (need at least 4)",
            ),
            ConsensusError::NodeSlashed(_) => String::from_str("Node has been slashed"),
            ConsensusError::EquivocationDetected { .. } => String::from_str("Equivocation detected"),
            ConsensusError::EntropyFailed(m) => {
                let mut s = String::from_str("entropy generation failed: ");
                s.append(m.as_str());
                s
            },
            ConsensusError::InvariantViolated(m) => {
                let mut s = String::from_str("invariant violated: ");
                s.append(m.as_str());
                s
            },
            ConsensusError::EventPruned(m) => {
                let mut s = String::from_str("event pruned: ");
                s.append(m.as_str());
                s
            },
            ConsensusError::Config(m) => {
                let mut s = String::from_str("config error: ");
                s.append(m.as_str());
                s
            },
        }
    }
}

/// Consensus statistics.
pub struct ConsensusStats {
    /// Events tracked.
    pub total_tracked: usize,
    /// Events committed.
    pub committed: u64,
    /// Highest round over all nodes.
    pub current_max_round: u64,
    /// Number of events per state name.
    pub by_state: Vec<(String, usize)>,
    /// Number of consensus nodes.
    pub total_nodes: usize,
    /// The supermajority threshold.
    pub threshold: usize,
}

/// A slashing backend the consensus engine reports offenses to.
pub trait SlashingBackend: Sized {
    /// Internal consistency.
    spec fn backend_wf(&self) -> bool;

    /// Whether `node` is slashed.
    spec fn slashed(&self, node: NodeId) -> bool;

    /// `next` is this backend after recording `offense` by `node`.
    spec fn offense_applied(&self, next: &Self, node: NodeId, offense: SlashOffense) -> bool;

    /// `next` is this backend after registering `node` with `stake`.
    spec fn registered(&self, next: &Self, node: NodeId, stake: u64) -> bool;

    /// Whether `node` is slashed.
    fn is_slashed(&self, node: &NodeId) -> (r: bool)
        requires
            self.backend_wf(),
        ensures
            r == self.slashed(*node),
    ;

    /// Record an offense and return its outcome.
    fn record_offense(&mut self, node: NodeId, offense: SlashOffense) -> (r: SlashOutcome)
        requires
            old(self).backend_wf(),
        ensures
            final(self).backend_wf(),
            old(self).offense_applied(&*final(self), node, offense),
    ;

    /// Register a validator with its stake.
    fn register_validator(&mut self, node: NodeId, stake: u64)
        requires
            old(self).backend_wf(),
        ensures
            final(self).backend_wf(),
            old(self).registered(&*final(self), node, stake),
    ;
}

impl SlashingBackend for SlashingEngine {
    open spec fn backend_wf(&self) -> bool {
        self.wf()
    }

    open spec fn slashed(&self, node: NodeId) -> bool {
        model_slashed(self@, node)
    }

    open spec fn offense_applied(&self, next: &Self, node: NodeId, offense: SlashOffense) -> bool {
        next@ == after_offense(self@, node, offense)
    }

    open spec fn registered(&self, next: &Self, node: NodeId, stake: u64) -> bool {
        next@ == (crate::slashing::SlashingModel {
            stakes: self@.stakes.insert(node, stake),
            points: self@.points.insert(node, crate::vector_clock::count_at(self@.points, node)),
            ..self@
        })
    }

    fn is_slashed(&self, node: &NodeId) -> (r: bool) {
        SlashingEngine::is_slashed(self, node)
    }

    fn record_offense(&mut self, node: NodeId, offense: SlashOffense) -> (r: SlashOutcome) {
        SlashingEngine::record_offense(self, node, offense)
    }

    fn register_validator(&mut self, node: NodeId, stake: u64) {
        SlashingEngine::register_validator(self, node, stake)
    }
}


/// The mathematical state of the consensus engine.
pub struct ConsensusModel {
    /// The configuration.
    pub config: ConsensusConfig,
    /// The consensus state of each processed event.
    pub states: Map<EventId, ConsensusState>,
    /// The round of each processed event.
    pub rounds: Map<EventId, u64>,
    /// The witnesses of each round.
    pub witnesses: Map<u64, Set<EventId>>,
    /// Fame decisions.
    pub fame: Map<EventId, bool>,
    /// Per-node participation.
    pub nodes: Map<NodeId, NodeConsensusInfo>,
    /// Number of committed events.
    pub committed_count: u64,
    /// The first event seen for each creator and sequence.
    pub first_seen: Map<(NodeId, u64), EventId>,
}

/// The consensus engine over a slashing backend.
pub struct ConsensusEngine<S: SlashingBackend> {
    config: ConsensusConfig,
    event_states: VecMap<EventId, ConsensusState>,
    event_rounds: VecMap<EventId, u64>,
    round_witnesses: VecMap<u64, Vec<EventId>>,
    fame_status: VecMap<EventId, bool>,
    node_info: VecMap<NodeId, NodeConsensusInfo>,
    committed_count: u64,
    slashing: S,
    round_timer: RoundTimer,
    first_event_for_sequence: VecMap<(NodeId, u64), EventId>,
}

/// The engine over the built-in slashing engine.
pub type DefaultConsensusEngine = ConsensusEngine<SlashingEngine>;

impl<S: SlashingBackend> View for ConsensusEngine<S> {
    type V = ConsensusModel;

    closed spec fn view(&self) -> ConsensusModel {
        ConsensusModel {
            config: self.config,
            states: self.event_states@,
            rounds: self.event_rounds@,
            witnesses: self.round_witnesses@.map_values(|v: Vec<EventId>| v@.to_set()),
            fame: self.fame_status@,
            nodes: self.node_info@,
            committed_count: self.committed_count,
            first_seen: self.first_event_for_sequence@,
        }
    }
}

/// The witnesses of round `r` (empty when none).
pub open spec fn witnesses_of(m: ConsensusModel, r: u64) -> Set<EventId> {
    if m.witnesses.contains_key(r) {
        m.witnesses[r]
    } else {
        Set::empty()
    }
}

/// The participation record of `n` (fresh when unseen).
pub open spec fn info_of(m: ConsensusModel, n: NodeId) -> NodeConsensusInfo {
    if m.nodes.contains_key(n) {
        m.nodes[n]
    } else {
        fresh_info()
    }
}

/// Whether the event is committed.
pub open spec fn committed_in(m: ConsensusModel, id: EventId) -> bool {
    m.states.contains_key(id) && m.states[id] == ConsensusState::Committed
}

/// Event `e` sees witness `w`: `w` is a proper ancestor of `e`.
pub open spec fn sees(g: GraphModel, e: EventId, w: EventId) -> bool {
    e != w && is_ancestor(g, e, w)
}

/// How many of `ws` event `e` sees.
pub open spec fn seen_count(g: GraphModel, e: EventId, ws: Set<EventId>) -> nat {
    ws.filter(|w: EventId| sees(g, e, w)).len()
}

/// How many of `ws` see `w`.
pub open spec fn seen_by_count(g: GraphModel, w: EventId, ws: Set<EventId>) -> nat {
    ws.filter(|x: EventId| sees(g, x, w)).len()
}

/// A traversal failure reported as a consensus error: a pruned event on the
/// ancestry of one of `starts`, or (`GraphError`) one of `starts` with more
/// ancestors than a traversal visits.
pub open spec fn ancestry_error(g: GraphModel, starts: Set<EventId>, err: ConsensusError) -> bool {
    ||| err matches ConsensusError::EventPruned(s) && exists|d: EventId, x: EventId|
        #[trigger] starts.contains(d) && #[trigger] g.pruned.contains_key(x) && !g.events.contains_key(x) && (x == d || is_ancestor(g, d, x))
            && s@ == short_id(x)
    ||| err is GraphError && exists|d: EventId| #[trigger] starts.contains(d) && !within_traversal_bounds(g, d)
}

/// The round of a known parent.
pub open spec fn parent_round(m: ConsensusModel, p: Option<EventId>) -> Option<u64> {
    match p {
        Some(id) => if m.rounds.contains_key(id) {
            Some(m.rounds[id])
        } else {
            None
        },
        None => None,
    }
}

/// The largest round among the event's known parents (0 when none).
pub open spec fn max_parent_round(m: ConsensusModel, e: EventView) -> u64 {
    let a = match parent_round(m, e.self_parent) {
        Some(r) => r,
        None => 0,
    };
    let b = match parent_round(m, e.other_parent) {
        Some(r) => r,
        None => 0,
    };
    if a >= b {
        a
    } else {
        b
    }
}

/// Whether `e` strongly sees the witnesses of round `r`.
pub open spec fn strongly_sees_round(m: ConsensusModel, g: GraphModel, e: EventId, r: u64) -> bool {
    m.witnesses.contains_key(r) && seen_count(g, e, m.witnesses[r]) >= supermajority_spec(m.config.total_nodes)
}

/// Scanning rounds `r` down to 0: one past the first strongly seen round,
/// else `mp`.
pub open spec fn scan_rounds(m: ConsensusModel, g: GraphModel, e: EventId, r: u64, mp: u64) -> u64
    decreases r,
{
    if strongly_sees_round(m, g, e, r) {
        if r == u64::MAX {
            u64::MAX
        } else {
            (r + 1) as u64
        }
    } else if r == 0 {
        mp
    } else {
        scan_rounds(m, g, e, (r - 1) as u64, mp)
    }
}

/// The round an event is assigned: 0 for a root, else one past the latest
/// round up to its parents' whose witnesses it strongly sees, else its
/// parents' round.
pub open spec fn assigned_round(m: ConsensusModel, g: GraphModel, e: EventView) -> u64 {
    if e.self_parent.is_none() && e.other_parent.is_none() {
        0
    } else {
        scan_rounds(m, g, e.id, max_parent_round(m, e), max_parent_round(m, e))
    }
}

/// Whether witness `w` of round `wr` is famous: decided by the witnesses of
/// round `wr + commit_delay_rounds` (a supermajority seeing it, or not
/// seeing it), a split vote by the coin; not famous without such witnesses.
pub open spec fn famous_spec(m: ConsensusModel, g: GraphModel, w: EventId, wr: u64) -> bool {
    let cr = wr + m.config.commit_delay_rounds;
    let t = supermajority_spec(m.config.total_nodes);
    if cr <= u64::MAX && m.witnesses.contains_key(cr as u64) {
        let ws = m.witnesses[cr as u64];
        let s = seen_by_count(g, w, ws);
        if s >= t {
            true
        } else if ws.len() - s >= t {
            false
        } else {
            coin_spec(wr, m.config.round_seed)
        }
    } else {
        false
    }
}

proof fn lemma_scan_finds(m: ConsensusModel, g: GraphModel, e: EventId, k: u64, mp: u64, r: u64)
    requires
        r <= k,
        strongly_sees_round(m, g, e, r),
        forall|r2: u64| r < r2 <= k ==> !#[trigger] strongly_sees_round(m, g, e, r2),
    ensures
        r < u64::MAX ==> scan_rounds(m, g, e, k, mp) == r + 1,
    decreases k,
{
    if k > r {
        assert(!strongly_sees_round(m, g, e, k));
        lemma_scan_finds(m, g, e, (k - 1) as u64, mp, r);
    }
}

proof fn lemma_scan_none(m: ConsensusModel, g: GraphModel, e: EventId, k: u64, mp: u64)
    requires
        forall|r2: u64| r2 <= k ==> !#[trigger] strongly_sees_round(m, g, e, r2),
    ensures
        scan_rounds(m, g, e, k, mp) == mp,
    decreases k,
{
    assert(!strongly_sees_round(m, g, e, k));
    if k > 0 {
        lemma_scan_none(m, g, e, (k - 1) as u64, mp);
    }
}

/// Round law: an event with a parent that strongly sees the witnesses of
/// round `r`, and of no later round up to its parents' round, is assigned
/// round `r + 1`, past the round it strongly sees.
pub proof fn lemma_round_advances_past_strongly_seen(m: ConsensusModel, g: GraphModel, e: EventView, r: u64)
    requires
        e.self_parent is Some || e.other_parent is Some,
        r <= max_parent_round(m, e),
        r < u64::MAX,
        strongly_sees_round(m, g, e.id, r),
        forall|r2: u64| r < r2 <= max_parent_round(m, e) ==> !#[trigger] strongly_sees_round(m, g, e.id, r2),
    ensures
        assigned_round(m, g, e) == r + 1,
        assigned_round(m, g, e) > r,
{
    lemma_scan_finds(m, g, e.id, max_parent_round(m, e), max_parent_round(m, e), r);
}

/// Round law: an event with a parent that strongly sees the witnesses of
/// no round up to its parents' round stays in its parents' round; an event
/// without parents is in round 0.
pub proof fn lemma_round_stays_without_strong_sight(m: ConsensusModel, g: GraphModel, e: EventView)
    ensures
        e.self_parent is None && e.other_parent is None ==> assigned_round(m, g, e) == 0,
        (e.self_parent is Some || e.other_parent is Some) && (forall|r2: u64|
            r2 <= max_parent_round(m, e) ==> !#[trigger] strongly_sees_round(m, g, e.id, r2)) ==> assigned_round(m, g, e)
            == max_parent_round(m, e),
{
    if (e.self_parent is Some || e.other_parent is Some) && (forall|r2: u64|
        r2 <= max_parent_round(m, e) ==> !#[trigger] strongly_sees_round(m, g, e.id, r2)) {
        lemma_scan_none(m, g, e.id, max_parent_round(m, e), max_parent_round(m, e));
    }
}

/// Fame law: a witness of round `wr` is famous when a supermajority of the
/// witnesses `commit_delay_rounds` later see it, not famous when a
/// supermajority of them do not, and on a split vote takes the coin of
/// round `wr` under the round seed; without witnesses in that round it is
/// not famous.
pub proof fn lemma_fame_vote(m: ConsensusModel, g: GraphModel, w: EventId, wr: u64)
    ensures
        ({
            let cr = wr + m.config.commit_delay_rounds;
            let t = supermajority_spec(m.config.total_nodes);
            if cr <= u64::MAX && m.witnesses.contains_key(cr as u64) {
                let ws = m.witnesses[cr as u64];
                let yes = seen_by_count(g, w, ws);
                let no = ws.len() - yes;
                &&& yes >= t ==> famous_spec(m, g, w, wr)
                &&& yes < t && no >= t ==> !famous_spec(m, g, w, wr)
                &&& yes < t && no < t ==> famous_spec(m, g, w, wr) == coin_spec(wr, m.config.round_seed)
            } else {
                !famous_spec(m, g, w, wr)
            }
        }),
{
}

/// Counting, among the listed ids, those for which `pred` holds.
proof fn lemma_count_step(s: Seq<EventId>, i: int, counted: Set<EventId>, pred: spec_fn(EventId) -> bool, holds: bool)
    requires
        s.no_duplicates(),
        0 <= i < s.len(),
        counted == s.take(i).to_set().filter(pred),
        holds == pred(s[i]),
    ensures
        (if holds { counted.insert(s[i]) } else { counted }) == s.take(i + 1).to_set().filter(pred),
        !counted.contains(s[i]),
{
    assert(s.take(i + 1) =~= s.take(i).push(s[i]));
    s.take(i).lemma_push_to_set_commute(s[i]);
    if s.take(i).contains(s[i]) {
        let j = choose|j: int| 0 <= j < i && s.take(i)[j] == s[i];
        assert(s[j] == s[i]);
    }
    assert((if holds { counted.insert(s[i]) } else { counted }) =~= s.take(i + 1).to_set().filter(pred));
}

impl<S: SlashingBackend> ConsensusEngine<S> {
    /// Internal consistency.
    pub closed spec fn wf(&self) -> bool {
        &&& self.event_states.wf()
        &&& self.event_rounds.wf()
        &&& self.round_witnesses.wf()
        &&& self.fame_status.wf()
        &&& self.node_info.wf()
        &&& self.first_event_for_sequence.wf()
        &&& forall|r: u64| #[trigger] self.round_witnesses@.contains_key(r) ==> self.round_witnesses@[r]@.no_duplicates()
        &&& forall|id: EventId| #[trigger] self.event_rounds@.contains_key(id) ==> self.event_states@.contains_key(id)
        &&& self.slashing.backend_wf()
    }

    /// Tracking law: every event given a round has a consensus state.
    pub proof fn lemma_rounds_tracked(&self)
        requires
            self.wf(),
        ensures
            forall|id: EventId| #[trigger] self@.rounds.contains_key(id) ==> self@.states.contains_key(id),
    {
    }

    /// The slashing backend.
    pub closed spec fn backend(&self) -> S {
        self.slashing
    }

    /// An engine with nothing processed, over the given backend.
    pub fn new(config: ConsensusConfig, slashing: S) -> (r: ConsensusEngine<S>)
        requires
            slashing.backend_wf(),
        ensures
            r.wf(),
            r.backend() == slashing,
            r@ == (ConsensusModel {
                config,
                states: Map::empty(),
                rounds: Map::empty(),
                witnesses: Map::empty(),
                fame: Map::empty(),
                nodes: Map::empty(),
                committed_count: 0,
                first_seen: Map::empty(),
            }),
    {
        let round_timer = RoundTimer::new(duration_from_millis(config.round_timeout_ms), config.max_consecutive_timeouts);
        let r = ConsensusEngine {
            config,
            event_states: VecMap::new(),
            event_rounds: VecMap::new(),
            round_witnesses: VecMap::new(),
            fame_status: VecMap::new(),
            node_info: VecMap::new(),
            committed_count: 0,
            slashing,
            round_timer,
            first_event_for_sequence: VecMap::new(),
        };
        proof {
            assert(r@.witnesses =~= Map::<u64, Set<EventId>>::empty());
        }
        r
    }

    /// Whether `event_id` sees enough of `witnesses` (a supermajority of
    /// the configured nodes).
    fn can_strongly_see(&self, event_id: &EventId, witnesses: &Vec<EventId>, graph: &CausalGraph) -> (r: Result<bool, ConsensusError>)
        requires
            graph.wf(),
            witnesses@.no_duplicates(),
        ensures
            r matches Ok(b) ==> b == (seen_count(graph@, *event_id, witnesses@.to_set()) >= supermajority_spec(self@.config.total_nodes)),
            r matches Err(err) ==> ancestry_error(graph@, set![*event_id], err),
    {
        let ghost g = graph@;
        let ghost pred = |w: EventId| sees(g, *event_id, w);
        let ghost mut counted: Set<EventId> = Set::empty();
        let mut seen: usize = 0;
        let n = witnesses.len();
        let mut i: usize = 0;
        proof {
            assert(witnesses@.take(0).to_set().filter(pred) =~= Set::<EventId>::empty());
        }
        while i < n
            invariant
                graph.wf(),
                g == graph@,
                pred == (|w: EventId| sees(g, *event_id, w)),
                n == witnesses@.len(),
                witnesses@.no_duplicates(),
                i <= n,
                counted == witnesses@.take(i as int).to_set().filter(pred),
                counted.finite(),
                seen == counted.len(),
                seen <= i,
            decreases n - i,
        {
            let w = witnesses[i];
            let res = graph.is_ancestor_of(event_id, &w);
            match res {
                Ok(b) => {
                    proof {
                        assert(b == pred(witnesses@[i as int]));
                        lemma_count_step(witnesses@, i as int, counted, pred, b);
                    }
                    if b {
                        seen = seen + 1;
                        proof {
                            counted = counted.insert(w);
                        }
                    }
                },
                Err(CausalGraphError::EventPruned(msg)) => {
                    proof {
                        assert(set![*event_id].contains(*event_id));
                    }
                    return Err(ConsensusError::EventPruned(msg));
                },
                Err(e) => {
                    proof {
                        assert(e is MaxDepthExceeded);
                        assert(set![*event_id].contains(*event_id));
                    }
                    return Err(ConsensusError::GraphError(e.message()));
                },
            }
            i = i + 1;
        }
        proof {
            assert(witnesses@.take(n as int) =~= witnesses@);
        }
        let t = supermajority(self.config.total_nodes);
        Ok(seen >= t)
    }
}


/// Whether the event is a witness.
pub open spec fn is_witness_state(m: ConsensusModel, id: EventId) -> bool {
    m.states.contains_key(id) && m.states[id] is Witness
}

/// What a round-0 witness commits before the commit delay has passed: the
/// uncommitted round-0 witnesses once they reach a supermajority.
pub open spec fn genesis_commit(m: ConsensusModel) -> Set<EventId> {
    if witnesses_of(m, 0).len() >= supermajority_spec(m.config.total_nodes) {
        witnesses_of(m, 0).filter(|w: EventId| !committed_in(m, w))
    } else {
        Set::empty()
    }
}

/// The uncommitted famous witnesses of round `cr`.
pub open spec fn famous_uncommitted(m: ConsensusModel, g: GraphModel, cr: u64) -> Set<EventId> {
    witnesses_of(m, cr).filter(|w: EventId| !committed_in(m, w) && famous_spec(m, g, w, cr))
}

/// `c` holds the famous witnesses `f` and otherwise only uncommitted
/// ancestors of them.
pub open spec fn commit_within(m: ConsensusModel, g: GraphModel, f: Set<EventId>, c: Set<EventId>) -> bool {
    &&& f.subset_of(c)
    &&& forall|x: EventId| #[trigger] c.contains(x) ==> f.contains(x) || (!committed_in(m, x) && exists|w: EventId|
        #[trigger] f.contains(w) && is_ancestor(g, w, x))
}

/// `c` holds every uncommitted ancestor of each witness of `f` whose
/// ancestry can be walked (no pruned event reached, within the traversal
/// bound).
pub open spec fn ancestors_included(m: ConsensusModel, g: GraphModel, f: Set<EventId>, c: Set<EventId>) -> bool {
    forall|w: EventId, x: EventId|
        #![trigger f.contains(w), is_ancestor(g, w, x)]
        f.contains(w) && no_pruned_reachable(g, w) && within_traversal_bounds(g, w) && is_ancestor(g, w, x)
            && !committed_in(m, x) ==> c.contains(x)
}

/// `c` is what committing the famous witnesses `f` gives: `f` with the
/// uncommitted ancestors of its witnesses, all of them where the ancestry
/// can be walked, and nothing else.
pub open spec fn commit_bounds(m: ConsensusModel, g: GraphModel, f: Set<EventId>, c: Set<EventId>) -> bool {
    &&& commit_within(m, g, f, c)
    &&& ancestors_included(m, g, f, c)
}

/// The fame map with every id of `f` marked famous.
pub open spec fn fame_marked(m: ConsensusModel, f: Set<EventId>) -> Map<EventId, bool> {
    Map::new(
        |id: EventId| m.fame.contains_key(id) || f.contains(id),
        |id: EventId|
            if f.contains(id) {
                true
            } else {
                m.fame[id]
            },
    )
}

/// A copy of a list of ids.
fn copy_ids(v: &Vec<EventId>) -> (r: Vec<EventId>)
    ensures
        r@ == v@,
{
    let mut r: Vec<EventId> = Vec::new();
    let mut i: usize = 0;
    while i < v.len()
        invariant
            i <= v@.len(),
            r@ == v@.take(i as int),
        decreases v@.len() - i,
    {
        r.push(v[i]);
        i = i + 1;
        proof {
            assert(r@ =~= v@.take(i as int));
        }
    }
    proof {
        assert(v@.take(v@.len() as int) =~= v@);
    }
    r
}

/// The listing of a set kept alongside it.
fn add_to_set(list: &mut Vec<EventId>, set: &mut VecMap<EventId, ()>, x: EventId)
    requires
        old(set).wf(),
        old(list)@.no_duplicates(),
        old(list)@.to_set() == old(set)@.dom(),
    ensures
        final(set).wf(),
        final(list)@.no_duplicates(),
        final(list)@.to_set() == final(set)@.dom(),
        final(set)@.dom() == old(set)@.dom().insert(x),
{
    if !set.contains_key(&x) {
        let ghost l0 = list@;
        let ghost s0 = set@.dom();
        list.push(x);
        set.insert(x, ());
        proof {
            crate::causal_graph::lemma_singleton_seq(x);
            assert(set![x] - s0 =~= set![x]);
            crate::causal_graph::lemma_append_fresh(l0, seq![x], s0, set![x]);
            assert(l0 + seq![x] =~= list@);
            assert(set@.dom() =~= s0 + set![x]);
        }
    } else {
        proof {
            assert(set@.dom() =~= set@.dom().insert(x));
        }
    }
}

impl<S: SlashingBackend> ConsensusEngine<S> {
    /// The round of `event`.
    fn assign_round(&self, event: &Event, graph: &CausalGraph) -> (r: Result<u64, ConsensusError>)
        requires
            self.wf(),
            graph.wf(),
        ensures
            r matches Ok(x) ==> x == assigned_round(self@, graph@, event@),
            r matches Err(err) ==> ancestry_error(graph@, set![event.id], err),
    {
        if event.is_root() {
            return Ok(0);
        }
        let a = match event.self_parent {
            Some(p) => match self.event_rounds.get(&p) {
                Some(x) => *x,
                None => 0,
            },
            None => 0,
        };
        let b = match event.other_parent {
            Some(p) => match self.event_rounds.get(&p) {
                Some(x) => *x,
                None => 0,
            },
            None => 0,
        };
        let mp = if a >= b { a } else { b };
        proof {
            assert(mp == max_parent_round(self@, event@));
        }
        let mut cur = mp;
        loop
            invariant
                self.wf(),
                graph.wf(),
                scan_rounds(self@, graph@, event.id, mp, mp) == scan_rounds(self@, graph@, event.id, cur, mp),
                mp == max_parent_round(self@, event@),
                !(event.self_parent.is_none() && event.other_parent.is_none()),
            decreases cur,
        {
            match self.round_witnesses.get(&cur) {
                Some(ws) => {
                    proof {
                        assert(self@.witnesses[cur] == ws@.to_set());
                    }
                    let seen = match self.can_strongly_see(&event.id, ws, graph) {
                        Ok(b) => b,
                        Err(e) => {
                            return Err(e);
                        },
                    };
                    if seen {
                        proof {
                            assert(strongly_sees_round(self@, graph@, event.id, cur));
                            assert(scan_rounds(self@, graph@, event.id, cur, mp) == (if cur == u64::MAX { u64::MAX } else { (cur + 1) as u64 }));
                        }
                        proof {
                            assert(assigned_round(self@, graph@, event@) == scan_rounds(self@, graph@, event.id, mp, mp));
                        }
                        if cur == u64::MAX {
                            return Ok(u64::MAX);
                        }
                        return Ok(cur + 1);
                    }
                },
                None => {},
            }
            if cur == 0 {
                return Ok(mp);
            }
            cur = cur - 1;
        }
    }

    /// Whether witness `witness_id` of round `witness_round` is famous.
    fn is_famous(&self, witness_id: &EventId, witness_round: u64, graph: &CausalGraph) -> (r: Result<bool, ConsensusError>)
        requires
            self.wf(),
            graph.wf(),
        ensures
            r matches Ok(b) ==> b == famous_spec(self@, graph@, *witness_id, witness_round),
            r matches Err(err) ==> ancestry_error(
                graph@,
                witnesses_of(self@, (witness_round + self@.config.commit_delay_rounds) as u64),
                err,
            ),
    {
        if witness_round > u64::MAX - self.config.commit_delay_rounds {
            return Ok(false);
        }
        let check_round = witness_round + self.config.commit_delay_rounds;
        let ws = match self.round_witnesses.get(&check_round) {
            Some(ws) => ws,
            None => {
                return Ok(false);
            },
        };
        let ghost g = graph@;
        let ghost pred = |x: EventId| sees(g, x, *witness_id);
        let ghost mut counted: Set<EventId> = Set::empty();
        proof {
            assert(self@.witnesses[check_round] == ws@.to_set());
            assert(ws@.take(0).to_set().filter(pred) =~= Set::<EventId>::empty());
        }
        let total = ws.len();
        let mut seeing: usize = 0;
        let mut i: usize = 0;
        while i < total
            invariant
                graph.wf(),
                g == graph@,
                check_round == witness_round + self@.config.commit_delay_rounds,
                pred == (|x: EventId| sees(g, x, *witness_id)),
                total == ws@.len(),
                ws@.no_duplicates(),
                ws@.to_set() == witnesses_of(self@, check_round),
                i <= total,
                counted == ws@.take(i as int).to_set().filter(pred),
                counted.finite(),
                seeing == counted.len(),
                seeing <= i,
            decreases total - i,
        {
            let lw = ws[i];
            match graph.is_ancestor_of(&lw, witness_id) {
                Ok(b) => {
                    proof {
                        assert(b == pred(ws@[i as int]));
                        lemma_count_step(ws@, i as int, counted, pred, b);
                    }
                    if b {
                        seeing = seeing + 1;
                        proof {
                            counted = counted.insert(lw);
                        }
                    }
                },
                Err(CausalGraphError::EventPruned(msg)) => {
                    proof {
                        assert(ws@.to_set().contains(ws@[i as int]));
                        assert(traversal_error(g, lw, CausalGraphError::EventPruned(msg)));
                        let x = choose|x: EventId| #[trigger] g.pruned.contains_key(x) && !g.events.contains_key(x) && (x == lw || is_ancestor(g, lw, x))
                            && msg@ == short_id(x);
                        assert(witnesses_of(self@, check_round).contains(lw));
                        assert(check_round == (witness_round + self@.config.commit_delay_rounds) as u64);
                    }
                    return Err(ConsensusError::EventPruned(msg));
                },
                Err(e) => {
                    proof {
                        assert(e is MaxDepthExceeded);
                        assert(ws@.to_set().contains(ws@[i as int]));
                        assert(witnesses_of(self@, check_round).contains(lw));
                        assert(check_round == (witness_round + self@.config.commit_delay_rounds) as u64);
                    }
                    return Err(ConsensusError::GraphError(e.message()));
                },
            }
            i = i + 1;
        }
        proof {
            assert(ws@.take(total as int) =~= ws@);
            ws@.unique_seq_to_set();
        }
        let not_seeing = total - seeing;
        let threshold = supermajority(self.config.total_nodes);
        if seeing >= threshold {
            return Ok(true);
        }
        if not_seeing >= threshold {
            return Ok(false);
        }
        Ok(coin_round(witness_round, &self.config.round_seed))
    }

    /// Whether the event is committed.
    pub fn is_committed(&self, event_id: &EventId) -> (r: bool)
        requires
            self.wf(),
        ensures
            r == committed_in(self@, *event_id),
    {
        match self.event_states.get(event_id) {
            Some(s) => *s == ConsensusState::Committed,
            None => false,
        }
    }

    /// The events a new witness commits: before the commit delay has passed,
    /// the round-0 witnesses once they reach a supermajority; afterwards the
    /// uncommitted famous witnesses `commit_delay_rounds` back (marked
    /// famous) with their uncommitted ancestors. Nothing for a non-witness.
    fn check_commitments(&mut self, event_id: &EventId, round: u64, graph: &CausalGraph) -> (r: Result<Vec<EventId>, ConsensusError>)
        requires
            old(self).wf(),
            graph.wf(),
        ensures
            final(self).wf(),
            final(self).backend() == old(self).backend(),
            final(self).timer() == old(self).timer(),
            final(self)@ == (ConsensusModel { fame: final(self)@.fame, ..old(self)@ }),
            !is_witness_state(old(self)@, *event_id) ==> (r matches Ok(v) && v@.len() == 0 && final(self)@ == old(self)@),
            is_witness_state(old(self)@, *event_id) && round < old(self)@.config.commit_delay_rounds ==> (r matches Ok(v)
                && v@.no_duplicates() && v@.to_set() == (if round == 0 { genesis_commit(old(self)@) } else { Set::empty() })
                && final(self)@ == old(self)@),
            is_witness_state(old(self)@, *event_id) && round >= old(self)@.config.commit_delay_rounds ==> {
                let m = old(self)@;
                let f = famous_uncommitted(m, graph@, (round - m.config.commit_delay_rounds) as u64);
                &&& r matches Ok(v) ==> v@.no_duplicates() && commit_bounds(m, graph@, f, v@.to_set()) && final(self)@.fame
                    == fame_marked(m, f)
                &&& r matches Err(err) ==> ancestry_error(graph@, witnesses_of(m, round), err) && exists|f2: Set<EventId>|
                    f2.subset_of(f) && final(self)@.fame == #[trigger] fame_marked(m, f2)
            },
    {
        let ghost m = self@;
        let ghost g = graph@;
        let mut list: Vec<EventId> = Vec::new();
        let mut cset: VecMap<EventId, ()> = VecMap::new();
        proof {
            assert(list@.to_set() =~= cset@.dom());
        }
        let is_w = match self.event_states.get(event_id) {
            Some(ConsensusState::Witness { .. }) => true,
            _ => false,
        };
        if !is_w {
            return Ok(list);
        }
        if round < self.config.commit_delay_rounds {
            if round == 0 {
                match self.round_witnesses.get(&0) {
                    Some(ws) => {
                        proof {
                            assert(m.witnesses[0] == ws@.to_set());
                            ws@.unique_seq_to_set();
                        }
                        if ws.len() >= supermajority(self.config.total_nodes) {
                            let mut i: usize = 0;
                            while i < ws.len()
                                invariant
                                    self.round_timer == old(self).round_timer,
                                    self.wf(),
                                    self@ == m,
                                    cset.wf(),
                                    i <= ws@.len(),
                                    list@.no_duplicates(),
                                    list@.to_set() == cset@.dom(),
                                    cset@.dom() == ws@.take(i as int).to_set().filter(|w: EventId| !committed_in(m, w)),
                                decreases ws@.len() - i,
                            {
                                let w = ws[i];
                                proof {
                                    assert(ws@.take(i + 1) =~= ws@.take(i as int).push(w));
                                    ws@.take(i as int).lemma_push_to_set_commute(w);
                                }
                                if !self.is_committed(&w) {
                                    add_to_set(&mut list, &mut cset, w);
                                }
                                proof {
                                    assert(cset@.dom() =~= ws@.take(i + 1).to_set().filter(|w: EventId| !committed_in(m, w)));
                                }
                                i = i + 1;
                            }
                            proof {
                                assert(ws@.take(ws@.len() as int) =~= ws@);
                            }
                        } else {
                            proof {
                                assert(list@.to_set() =~= Set::<EventId>::empty());
                            }
                        }
                    },
                    None => {
                        proof {
                            assert(witnesses_of(m, 0).len() == 0);
                            assert(list@.to_set() =~= Set::<EventId>::empty());
                            assert(genesis_commit(m) =~= Set::<EventId>::empty());
                        }
                    },
                }
            } else {
                proof {
                    assert(list@.to_set() =~= Set::<EventId>::empty());
                }
            }
            return Ok(list);
        }
        let check_round = round - self.config.commit_delay_rounds;
        let ghost f = famous_uncommitted(m, g, check_round);
        let ws = match self.round_witnesses.get(&check_round) {
            Some(ws) => copy_ids(ws),
            None => {
                proof {
                    assert(f =~= Set::<EventId>::empty());
                    assert(list@.to_set() =~= Set::<EventId>::empty());
                    assert(self@.fame =~= fame_marked(m, f));
                }
                return Ok(list);
            },
        };
        proof {
            assert(ws@.to_set() == witnesses_of(m, check_round));
        }
        let ghost mut done: Set<EventId> = Set::empty();
        proof {
            assert(self@.fame =~= fame_marked(m, done));
        }
        let mut i: usize = 0;
        while i < ws.len()
            invariant
                self.round_timer == old(self).round_timer,
                self.wf(),
                graph.wf(),
                g == graph@,
                m == old(self)@,
                is_witness_state(m, *event_id),
                round >= m.config.commit_delay_rounds,
                self.backend() == old(self).backend(),
                self@ == (ConsensusModel { fame: self@.fame, ..m }),
                cset.wf(),
                i <= ws@.len(),
                ws@.to_set() == witnesses_of(m, check_round),
                check_round == round - m.config.commit_delay_rounds,
                f == famous_uncommitted(m, g, check_round),
                done == ws@.take(i as int).to_set().intersect(f),
                self@.fame == fame_marked(m, done),
                list@.no_duplicates(),
                list@.to_set() == cset@.dom(),
                commit_within(m, g, done, cset@.dom()),
                ancestors_included(m, g, done, cset@.dom()),
            decreases ws@.len() - i,
        {
            let w = ws[i];
            proof {
                assert(ws@.take(i + 1) =~= ws@.take(i as int).push(w));
                ws@.take(i as int).lemma_push_to_set_commute(w);
                assert(ws@.to_set().contains(w));
            }
            if self.is_committed(&w) {
                proof {
                    assert(!f.contains(w));
                    assert(ws@.take(i + 1).to_set().intersect(f) =~= done);
                }
                i = i + 1;
                continue;
            }
            let famous = match self.is_famous(&w, check_round, graph) {
                Ok(b) => b,
                Err(e) => {
                    proof {
                        assert(done.subset_of(f));
                        assert(self@.witnesses == m.witnesses);
                        assert(self@.config == m.config);
                        assert((check_round + m.config.commit_delay_rounds) as u64 == round);
                        assert(witnesses_of(self@, (check_round + self@.config.commit_delay_rounds) as u64) == witnesses_of(m, round));
                        assert(ancestry_error(graph@, witnesses_of(m, round), e));
                        assert(exists|f2: Set<EventId>| f2.subset_of(f) && self@.fame == #[trigger] fame_marked(m, f2));
                    }
                    return Err(e);
                },
            };
            if famous {
                self.fame_status.insert(w, true);
                let ghost cb = cset@.dom();
                add_to_set(&mut list, &mut cset, w);
                let ghost done0 = done;
                proof {
                    assert forall|w2: EventId, x: EventId|
                        #![trigger done0.contains(w2), is_ancestor(g, w2, x)]
                        done0.contains(w2) && no_pruned_reachable(g, w2) && within_traversal_bounds(g, w2)
                            && is_ancestor(g, w2, x) && !committed_in(m, x) implies cset@.dom().contains(x) by {
                        assert(cb.contains(x));
                    }
                    done = done.insert(w);
                    assert(f.contains(w));
                    assert(done =~= ws@.take(i + 1).to_set().intersect(f));
                    assert(self@.fame =~= fame_marked(m, done));
                    assert forall|x: EventId| #[trigger] cset@.dom().contains(x) implies done.contains(x) || (!committed_in(m, x) && exists|w2: EventId|
                        #[trigger] done.contains(w2) && is_ancestor(g, w2, x)) by {
                        if x != w && !done0.contains(x) {
                            let w2 = choose|w2: EventId| #[trigger] done0.contains(w2) && is_ancestor(g, w2, x);
                            assert(done.contains(w2));
                        }
                    }
                }
                match graph.get_ancestors(&w) {
                    Ok(anc) => {
                        let mut k: usize = 0;
                        while k < anc.len()
                            invariant
                                self.round_timer == old(self).round_timer,
                                self.wf(),
                                self@ == (ConsensusModel { fame: self@.fame, ..m }),
                                cset.wf(),
                                k <= anc@.len(),
                                done.contains(w),
                                forall|x: EventId| #[trigger] anc@.contains(x) <==> is_ancestor(g, w, x),
                                list@.no_duplicates(),
                                list@.to_set() == cset@.dom(),
                                commit_within(m, g, done, cset@.dom()),
                                done == done0.insert(w),
                                ancestors_included(m, g, done0, cset@.dom()),
                                forall|j: int| 0 <= j < k && !committed_in(m, #[trigger] anc@[j]) ==> cset@.dom().contains(anc@[j]),
                            decreases anc@.len() - k,
                        {
                            let a = anc[k];
                            let ghost c0 = cset@.dom();
                            if !self.is_committed(&a) {
                                add_to_set(&mut list, &mut cset, a);
                                proof {
                                    assert(anc@.contains(a));
                                    assert forall|x: EventId| #[trigger] cset@.dom().contains(x) implies done.contains(x) || (!committed_in(m, x) && exists|w2: EventId|
                                        #[trigger] done.contains(w2) && is_ancestor(g, w2, x)) by {
                                        if x == a && !done.contains(x) {
                                            assert(done.contains(w) && is_ancestor(g, w, x));
                                        }
                                    }
                                }
                            }
                            proof {
                                assert(c0.subset_of(cset@.dom()));
                                assert forall|w2: EventId, x: EventId|
                                    #![trigger done0.contains(w2), is_ancestor(g, w2, x)]
                                    done0.contains(w2) && no_pruned_reachable(g, w2) && within_traversal_bounds(g, w2)
                                        && is_ancestor(g, w2, x) && !committed_in(m, x) implies cset@.dom().contains(x) by {
                                    assert(c0.contains(x));
                                }
                                assert forall|j: int| 0 <= j < k + 1 && !committed_in(m, #[trigger] anc@[j]) implies cset@.dom().contains(anc@[j]) by {
                                    if j < k {
                                        assert(c0.contains(anc@[j]));
                                    }
                                }
                            }
                            k = k + 1;
                        }
                        proof {
                            assert forall|w2: EventId, x: EventId|
                                #![trigger done.contains(w2), is_ancestor(g, w2, x)]
                                done.contains(w2) && no_pruned_reachable(g, w2) && within_traversal_bounds(g, w2)
                                    && is_ancestor(g, w2, x) && !committed_in(m, x) implies cset@.dom().contains(x) by {
                                if w2 == w {
                                    assert(anc@.contains(x));
                                    let j = choose|j: int| 0 <= j < anc@.len() && anc@[j] == x;
                                    assert(!committed_in(m, anc@[j]));
                                } else {
                                    assert(done0.contains(w2));
                                }
                            }
                        }
                    },
                    Err(_) => {
                        proof {
                            assert forall|w2: EventId, x: EventId|
                                #![trigger done.contains(w2), is_ancestor(g, w2, x)]
                                done.contains(w2) && no_pruned_reachable(g, w2) && within_traversal_bounds(g, w2)
                                    && is_ancestor(g, w2, x) && !committed_in(m, x) implies cset@.dom().contains(x) by {
                                assert(w2 != w);
                                assert(done0.contains(w2));
                            }
                        }
                    },
                }
            } else {
                proof {
                    assert(!f.contains(w));
                    assert(ws@.take(i + 1).to_set().intersect(f) =~= done);
                }
            }
            i = i + 1;
        }
        proof {
            assert(ws@.take(ws@.len() as int) =~= ws@);
            assert(done =~= f);
        }
        Ok(list)
    }
}


/// Whether `e` equivocates against the first event seen for its creator and
/// sequence (live, or pruned with its metadata kept).
pub open spec fn equivocation_found(m: ConsensusModel, g: GraphModel, e: EventView) -> bool {
    let key = (e.creator, e.sequence);
    &&& m.first_seen.contains_key(key)
    &&& m.first_seen[key] != e.id
    &&& {
        let f = m.first_seen[key];
        if g.events.contains_key(f) {
            g.events[f].creator == e.creator && g.events[f].sequence == e.sequence && g.events[f].id != e.id
        } else if g.pruned.contains_key(f) {
            g.pruned[f].creator == e.creator && g.pruned[f].sequence == e.sequence && g.pruned[f].event_id != e.id
        } else {
            false
        }
    }
}

/// Saturating increment.
pub open spec fn inc_sat(x: u64) -> u64 {
    if x == u64::MAX {
        u64::MAX
    } else {
        (x + 1) as u64
    }
}

/// The first event seen for the creator and sequence recorded, if none was.
pub open spec fn stage_seen(m: ConsensusModel, e: EventView) -> ConsensusModel {
    let key = (e.creator, e.sequence);
    if m.first_seen.contains_key(key) {
        m
    } else {
        ConsensusModel { first_seen: m.first_seen.insert(key, e.id), ..m }
    }
}

/// A first-seen entry is stale when its creator has created more than
/// `d` events past its sequence.
pub open spec fn is_stale(m: ConsensusModel, k: (NodeId, u64), d: u64) -> bool {
    m.nodes.contains_key(k.0) && m.nodes[k.0].events_created - k.1 > d
}

/// The first-seen entries without the stale ones.
pub open spec fn without_stale(m: ConsensusModel, d: u64) -> ConsensusModel {
    ConsensusModel {
        first_seen: Map::new(|k: (NodeId, u64)| m.first_seen.contains_key(k) && !is_stale(m, k, d), |k: (NodeId, u64)| m.first_seen[k]),
        ..m
    }
}

/// The periodic cleanup when the first-seen entries exceed the configured bound.
pub open spec fn stage_cleanup(m: ConsensusModel) -> ConsensusModel {
    if m.first_seen.len() > m.config.max_sequence_entries {
        without_stale(m, DEFAULT_SEQUENCE_CLEANUP_DISTANCE)
    } else {
        m
    }
}

/// The creator's participation updated for a new event.
pub open spec fn stage_bump(m: ConsensusModel, e: EventView) -> ConsensusModel {
    let info = info_of(m, e.creator);
    ConsensusModel {
        nodes: m.nodes.insert(
            e.creator,
            NodeConsensusInfo { events_created: inc_sat(info.events_created), last_event: Some(e.id), ..info },
        ),
        ..m
    }
}

/// Everything `process_event` does before assigning the round.
pub open spec fn pre_round(m: ConsensusModel, e: EventView) -> ConsensusModel {
    stage_bump(stage_cleanup(stage_seen(m, e)), e)
}

/// The event recorded in round `r`: a witness when the round has reached
/// the creator's next witness round, else pending.
pub open spec fn stage_witness(m: ConsensusModel, e: EventView, r: u64) -> ConsensusModel {
    let info = info_of(m, e.creator);
    if r >= info.last_witness_round {
        ConsensusModel {
            rounds: m.rounds.insert(e.id, r),
            states: m.states.insert(e.id, ConsensusState::Witness { round: r }),
            witnesses: m.witnesses.insert(r, witnesses_of(m, r).insert(e.id)),
            nodes: m.nodes.insert(
                e.creator,
                NodeConsensusInfo {
                    current_round: if info.current_round >= r {
                        info.current_round
                    } else {
                        r
                    },
                    last_witness_round: inc_sat(r),
                    ..info
                },
            ),
            ..m
        }
    } else {
        ConsensusModel { rounds: m.rounds.insert(e.id, r), states: m.states.insert(e.id, ConsensusState::Pending), ..m }
    }
}

/// Optimistic confirmation of a pending event with enough acknowledgments.
pub open spec fn stage_optimistic(m: ConsensusModel, e: EventView) -> ConsensusModel {
    if m.config.optimistic_confirmation && e.ack_count >= m.config.optimistic_threshold && m.states.contains_key(e.id)
        && m.states[e.id] == ConsensusState::Pending {
        ConsensusModel { states: m.states.insert(e.id, ConsensusState::Acknowledged), ..m }
    } else {
        m
    }
}

/// The events of `c` marked committed and counted, with fame map `fame`.
pub open spec fn stage_committed(m: ConsensusModel, c: Set<EventId>, fame: Map<EventId, bool>) -> ConsensusModel {
    ConsensusModel {
        states: Map::new(
            |id: EventId| m.states.contains_key(id) || c.contains(id),
            |id: EventId|
                if c.contains(id) {
                    ConsensusState::Committed
                } else {
                    m.states[id]
                },
        ),
        committed_count: if m.committed_count + c.len() > u64::MAX {
            u64::MAX
        } else {
            (m.committed_count + c.len()) as u64
        },
        fame,
        ..m
    }
}

/// What the commit step may produce from `m2` for the event `id` of round
/// `rd`: committed set `c` and fame map `fame`.
pub open spec fn commit_outcome(
    m2: ConsensusModel,
    g: GraphModel,
    id: EventId,
    rd: u64,
    c: Set<EventId>,
    fame: Map<EventId, bool>,
) -> bool {
    if !is_witness_state(m2, id) {
        c.len() == 0 && fame == m2.fame
    } else if rd < m2.config.commit_delay_rounds {
        c == (if rd == 0 { genesis_commit(m2) } else { Set::empty() }) && fame == m2.fame
    } else {
        let f = famous_uncommitted(m2, g, (rd - m2.config.commit_delay_rounds) as u64);
        commit_bounds(m2, g, f, c) && fame == fame_marked(m2, f)
    }
}

impl<S: SlashingBackend> ConsensusEngine<S> {
    /// Record the first event seen for the creator and sequence, or detect
    /// (and report to the slashing backend) an equivocation against it.
    fn note_first_seen(&mut self, event: &Event, graph: &CausalGraph) -> (r: bool)
        requires
            old(self).wf(),
            graph.wf(),
        ensures
            final(self).wf(),
            r == equivocation_found(old(self)@, graph@, event@),
            r ==> final(self)@ == old(self)@ && old(self).backend().offense_applied(&final(self).backend(), event.creator, SlashOffense::Equivocation),
            !r ==> final(self)@ == stage_seen(old(self)@, event@) && final(self).backend() == old(self).backend(),
            final(self).timer() == old(self).timer(),
    {
        let key = (event.creator, event.sequence);
        let first_id = match self.first_event_for_sequence.get(&key) {
            Some(f) => *f,
            None => {
                self.first_event_for_sequence.insert(key, event.id);
                return false;
            },
        };
        if crate::ids::id_eq(&first_id, &event.id) {
            return false;
        }
        let found = match graph.get_checked(&first_id) {
            Ok(first_event) => SlashingEngine::check_equivocation(first_event, event),
            Err(CausalGraphError::EventPruned(_)) => {
                match graph.get_pruned_metadata(&first_id) {
                    Some(md) => crate::ids::id_eq(&md.creator, &event.creator) && md.sequence == event.sequence
                        && !crate::ids::id_eq(&md.event_id, &event.id),
                    None => false,
                }
            },
            Err(_) => false,
        };
        if found {
            let _ = self.slashing.record_offense(event.creator, SlashOffense::Equivocation);
        }
        found
    }

    /// Remove the first-seen entries whose creator has created more than
    /// `distance` (default `DEFAULT_SEQUENCE_CLEANUP_DISTANCE`) events past
    /// their sequence; returns how many were removed.
    pub fn cleanup_stale_sequences(&mut self, distance: Option<u64>) -> (r: usize)
        requires
            old(self).wf(),
        ensures
            final(self).wf(),
            final(self).backend() == old(self).backend(),
            final(self).timer() == old(self).timer(),
            ({
                let d = match distance {
                    Some(x) => x,
                    None => DEFAULT_SEQUENCE_CLEANUP_DISTANCE,
                };
                &&& final(self)@ == without_stale(old(self)@, d)
                &&& r == old(self)@.first_seen.dom().filter(|k: (NodeId, u64)| is_stale(old(self)@, k, d)).len()
            }),
    {
        let d = match distance {
            Some(x) => x,
            None => DEFAULT_SEQUENCE_CLEANUP_DISTANCE,
        };
        let ghost m = self@;
        let ghost stale = |k: (NodeId, u64)| is_stale(m, k, d);
        proof {
            self.first_event_for_sequence.lemma_entries();
        }
        let n = self.first_event_for_sequence.len();
        let mut to_remove: Vec<(NodeId, u64)> = Vec::new();
        let mut i: usize = 0;
        while i < n
            invariant
                self.round_timer == old(self).round_timer,
                self.wf(),
                self@ == m,
                stale == (|k: (NodeId, u64)| is_stale(m, k, d)),
                n == self.first_event_for_sequence.entry_seq().len(),
                i <= n,
                to_remove@.no_duplicates(),
                forall|k: (NodeId, u64)| #[trigger] to_remove@.contains(k) <==> exists|j: int|
                    0 <= j < i && #[trigger] self.first_event_for_sequence.entry_seq()[j].0 == k && stale(k),
            decreases n - i,
        {
            proof {
                self.first_event_for_sequence.lemma_entries();
            }
            let k = *self.first_event_for_sequence.key_at(i);
            let (c, sq) = k;
            let is_st = match self.node_info.get(&c) {
                Some(info) => info.events_created.saturating_sub(sq) > d,
                None => false,
            };
            if is_st {
                let ghost t0 = to_remove@;
                proof {
                    assert(!t0.contains(k)) by {
                        if t0.contains(k) {
                            let j = choose|j: int| 0 <= j < i && #[trigger] self.first_event_for_sequence.entry_seq()[j].0 == k && stale(k);
                            assert(self.first_event_for_sequence.entry_seq()[j].0 != self.first_event_for_sequence.entry_seq()[i as int].0);
                        }
                    }
                }
                to_remove.push(k);
                proof {
                    assert forall|x: (NodeId, u64)| #[trigger] to_remove@.contains(x) <==> exists|j: int|
                        0 <= j < i + 1 && #[trigger] self.first_event_for_sequence.entry_seq()[j].0 == x && stale(x) by {
                        if to_remove@.contains(x) {
                            let q = choose|q: int| 0 <= q < to_remove@.len() && to_remove@[q] == x;
                            if q < t0.len() {
                                assert(t0[q] == x);
                                assert(t0.contains(x));
                            } else {
                                assert(self.first_event_for_sequence.entry_seq()[i as int].0 == x);
                            }
                        }
                        if exists|j: int| 0 <= j < i + 1 && #[trigger] self.first_event_for_sequence.entry_seq()[j].0 == x && stale(x) {
                            let j = choose|j: int| 0 <= j < i + 1 && #[trigger] self.first_event_for_sequence.entry_seq()[j].0 == x && stale(x);
                            if j < i {
                                assert(t0.contains(x));
                                let q = choose|q: int| 0 <= q < t0.len() && t0[q] == x;
                                assert(to_remove@[q] == x);
                            } else {
                                assert(to_remove@[t0.len() as int] == x);
                            }
                        }
                    }
                }
            } else {
                proof {
                    assert forall|x: (NodeId, u64)| #[trigger] to_remove@.contains(x) <==> exists|j: int|
                        0 <= j < i + 1 && #[trigger] self.first_event_for_sequence.entry_seq()[j].0 == x && stale(x) by {
                        if exists|j: int| 0 <= j < i + 1 && #[trigger] self.first_event_for_sequence.entry_seq()[j].0 == x && stale(x) {
                            let j = choose|j: int| 0 <= j < i + 1 && #[trigger] self.first_event_for_sequence.entry_seq()[j].0 == x && stale(x);
                            assert(j != i);
                        }
                    }
                }
            }
            i = i + 1;
        }
        proof {
            self.first_event_for_sequence.lemma_entries();
            assert forall|k: (NodeId, u64)| #[trigger] to_remove@.contains(k) <==> m.first_seen.dom().filter(stale).contains(k) by {
                if m.first_seen.dom().filter(stale).contains(k) {
                    let j = choose|j: int| 0 <= j < self.first_event_for_sequence.entry_seq().len() && #[trigger] self.first_event_for_sequence.entry_seq()[j].0 == k;
                }
            }
            assert(to_remove@.to_set() =~= m.first_seen.dom().filter(stale));
            to_remove@.unique_seq_to_set();
            assert(to_remove@.take(0).to_set() =~= Set::<(NodeId, u64)>::empty());
            assert(m.first_seen.remove_keys(Set::<(NodeId, u64)>::empty()) =~= m.first_seen);
        }
        let count = to_remove.len();
        let mut j: usize = 0;
        while j < count
            invariant
                self.round_timer == old(self).round_timer,
                self.wf(),
                count == to_remove@.len(),
                j <= count,
                self@ == (ConsensusModel { first_seen: m.first_seen.remove_keys(to_remove@.take(j as int).to_set()), ..m }),
                self.backend() == old(self).backend(),
            decreases count - j,
        {
            let k = to_remove[j];
            self.first_event_for_sequence.remove(&k);
            proof {
                assert(to_remove@.take(j + 1) =~= to_remove@.take(j as int).push(k));
                to_remove@.take(j as int).lemma_push_to_set_commute(k);
                assert(self@.first_seen =~= m.first_seen.remove_keys(to_remove@.take(j + 1).to_set()));
            }
            j = j + 1;
        }
        proof {
            assert(to_remove@.take(count as int) =~= to_remove@);
            assert(self@.first_seen =~= without_stale(m, d).first_seen);
        }
        count
    }
}


impl<S: SlashingBackend> ConsensusEngine<S> {
    /// The participation record of `node` (fresh when unseen).
    fn info(&self, node: &NodeId) -> (r: NodeConsensusInfo)
        requires
            self.wf(),
        ensures
            r == info_of(self@, *node),
    {
        match self.node_info.get(node) {
            Some(i) => *i,
            None => NodeConsensusInfo::default(),
        }
    }

    /// Count a new event of its creator.
    fn bump_creator(&mut self, event: &Event)
        requires
            old(self).wf(),
        ensures
            final(self).wf(),
            final(self).backend() == old(self).backend(),
            final(self).timer() == old(self).timer(),
            final(self)@ == stage_bump(old(self)@, event@),
    {
        let info = self.info(&event.creator);
        let updated = NodeConsensusInfo {
            events_created: info.events_created.saturating_add(1),
            last_event: Some(event.id),
            ..info
        };
        self.node_info.insert(event.creator, updated);
    }

    /// Record the event in round `round`, as a witness when it is the
    /// creator's first event in that round.
    fn record_round(&mut self, event: &Event, round: u64)
        requires
            old(self).wf(),
        ensures
            final(self).wf(),
            final(self).backend() == old(self).backend(),
            final(self).timer() == old(self).timer(),
            final(self)@ == stage_witness(old(self)@, event@, round),
    {
        let ghost m = self@;
        let info = self.info(&event.creator);
        self.event_rounds.insert(event.id, round);
        if round >= info.last_witness_round {
            self.event_states.insert(event.id, ConsensusState::Witness { round });
            let mut ws = match self.round_witnesses.remove(&round) {
                Some(v) => v,
                None => Vec::new(),
            };
            proof {
                assert(ws@.to_set() == witnesses_of(m, round));
            }
            let mut present = false;
            let mut k: usize = 0;
            while k < ws.len()
                invariant
                    k <= ws@.len(),
                    present == exists|q: int| 0 <= q < k && #[trigger] ws@[q] == event.id,
                decreases ws@.len() - k,
            {
                if crate::ids::id_eq(&ws[k], &event.id) {
                    present = true;
                }
                k = k + 1;
            }
            let ghost w0 = ws@;
            if !present {
                ws.push(event.id);
                proof {
                    crate::causal_graph::lemma_singleton_seq(event.id);
                    assert(set![event.id] - w0.to_set() =~= set![event.id]);
                    crate::causal_graph::lemma_append_fresh(w0, seq![event.id], w0.to_set(), set![event.id]);
                    assert(w0 + seq![event.id] =~= ws@);
                    assert(ws@.to_set() =~= witnesses_of(m, round).insert(event.id));
                }
            } else {
                proof {
                    assert(w0.contains(event.id));
                    assert(ws@.to_set() =~= witnesses_of(m, round).insert(event.id));
                }
            }
            self.round_witnesses.insert(round, ws);
            let updated = NodeConsensusInfo {
                current_round: if info.current_round >= round { info.current_round } else { round },
                last_witness_round: round.saturating_add(1),
                ..info
            };
            self.node_info.insert(event.creator, updated);
            proof {
                assert(self@.witnesses =~= stage_witness(m, event@, round).witnesses);
            }
        } else {
            self.event_states.insert(event.id, ConsensusState::Pending);
        }
    }

    /// Optimistic confirmation: a pending event with enough acknowledgments
    /// becomes acknowledged.
    fn check_optimistic_confirmation(&mut self, event: &Event)
        requires
            old(self).wf(),
        ensures
            final(self).wf(),
            final(self).backend() == old(self).backend(),
            final(self).timer() == old(self).timer(),
            final(self)@ == stage_optimistic(old(self)@, event@),
    {
        if self.config.optimistic_confirmation && event.ack_count >= self.config.optimistic_threshold {
            let pending = match self.event_states.get(&event.id) {
                Some(s) => *s == ConsensusState::Pending,
                None => false,
            };
            if pending {
                self.event_states.insert(event.id, ConsensusState::Acknowledged);
            }
        }
    }

    /// Mark the listed events committed and count them.
    fn mark_committed(&mut self, committed: &Vec<EventId>)
        requires
            old(self).wf(),
            committed@.no_duplicates(),
        ensures
            final(self).wf(),
            final(self).backend() == old(self).backend(),
            final(self).timer() == old(self).timer(),
            final(self)@ == stage_committed(old(self)@, committed@.to_set(), old(self)@.fame),
    {
        let ghost m = self@;
        let mut i: usize = 0;
        proof {
            assert(committed@.take(0).to_set() =~= Set::<EventId>::empty());
            assert(self@.states =~= stage_committed(m, committed@.take(0).to_set(), m.fame).states);
        }
        while i < committed.len()
            invariant
                self.round_timer == old(self).round_timer,
                self.wf(),
                self.backend() == old(self).backend(),
                i <= committed@.len(),
                self@ == (ConsensusModel { states: stage_committed(m, committed@.take(i as int).to_set(), m.fame).states, ..m }),
            decreases committed@.len() - i,
        {
            let id = committed[i];
            self.event_states.insert(id, ConsensusState::Committed);
            proof {
                assert(committed@.take(i + 1) =~= committed@.take(i as int).push(id));
                committed@.take(i as int).lemma_push_to_set_commute(id);
                assert(self@.states =~= stage_committed(m, committed@.take(i + 1).to_set(), m.fame).states);
            }
            i = i + 1;
        }
        proof {
            assert(committed@.take(committed@.len() as int) =~= committed@);
            committed@.unique_seq_to_set();
        }
        let n = committed.len() as u64;
        self.committed_count = self.committed_count.saturating_add(n);
    }

    /// Process a new event: assign it a round, record whether it is a
    /// witness, and commit what it makes final. An event already processed
    /// gives no commits; one from a slashed creator is refused with
    /// `NodeSlashed`; one that equivocates against the first event seen for
    /// its creator and sequence is reported to the slashing backend, marked
    /// rejected and refused with `EquivocationDetected`. Otherwise the first
    /// event of the creator and sequence is recorded (the first-seen table is
    /// cleaned of stale entries past its bound), the creator's count is
    /// updated, and the round, witness, optimistic and commit steps run in
    /// turn; an ancestry failure in the round or commit step stops it.
    pub fn process_event(&mut self, event: &Event, graph: &CausalGraph) -> (r: Result<Vec<EventId>, ConsensusError>)
        requires
            old(self).wf(),
            graph.wf(),
        ensures
            final(self).wf(),
            final(self).timer() == old(self).timer(),
            ({
                let m = old(self)@;
                let g = graph@;
                let e = event@;
                let b0 = old(self).backend();
                let b1 = final(self).backend();
                &&& m.states.contains_key(e.id) ==> (r matches Ok(v) && v@.len() == 0 && final(self)@ == m && b1 == b0)
                &&& !m.states.contains_key(e.id) && b0.slashed(e.creator) ==> (r == Err::<Vec<EventId>, ConsensusError>(
                    ConsensusError::NodeSlashed(e.creator),
                ) && final(self)@ == m && b1 == b0)
                &&& !m.states.contains_key(e.id) && !b0.slashed(e.creator) && equivocation_found(m, g, e) ==> (r == Err::<
                    Vec<EventId>,
                    ConsensusError,
                >(ConsensusError::EquivocationDetected { creator: e.creator, event_id: e.id })
                    && final(self)@ == (ConsensusModel { states: m.states.insert(e.id, ConsensusState::Rejected), ..m })
                    && b0.offense_applied(&b1, e.creator, SlashOffense::Equivocation))
                &&& !m.states.contains_key(e.id) && !b0.slashed(e.creator) && !equivocation_found(m, g, e) ==> {
                    let m1 = pre_round(m, e);
                    let rd = assigned_round(m1, g, e);
                    let m2 = stage_optimistic(stage_witness(m1, e, rd), e);
                    &&& b1 == b0
                    &&& r matches Ok(v) ==> v@.no_duplicates() && commit_outcome(m2, g, e.id, rd, v@.to_set(), final(self)@.fame)
                        && final(self)@ == stage_committed(m2, v@.to_set(), final(self)@.fame)
                    &&& r matches Err(err) ==> (final(self)@ == m1 && ancestry_error(g, set![e.id], err)) || (
                        is_witness_state(m2, e.id) && rd >= m2.config.commit_delay_rounds && ancestry_error(g, witnesses_of(m2, rd), err)
                        && exists|f2: Set<EventId>| f2.subset_of(famous_uncommitted(m2, g, (rd - m2.config.commit_delay_rounds) as u64))
                            && final(self)@ == (ConsensusModel { fame: #[trigger] fame_marked(m2, f2), ..m2 }))
                }
            }),
            count_exact(old(self)@) ==> count_exact(final(self)@),
    {
        let ghost m = self@;
        let ghost e = event@;
        if self.event_states.contains_key(&event.id) {
            return Ok(Vec::new());
        }
        if self.slashing.is_slashed(&event.creator) {
            return Err(ConsensusError::NodeSlashed(event.creator));
        }
        let equivocation = self.note_first_seen(event, graph);
        if equivocation {
            self.event_states.insert(event.id, ConsensusState::Rejected);
            proof {
                if count_exact(m) {
                    lemma_insert_uncommitted(m, e.id, ConsensusState::Rejected);
                }
            }
            return Err(ConsensusError::EquivocationDetected { creator: event.creator, event_id: event.id });
        }
        let ghost b0 = self.backend();
        proof {
            self.first_event_for_sequence.lemma_entries();
        }
        if self.first_event_for_sequence.len() > self.config.max_sequence_entries {
            let _ = self.cleanup_stale_sequences(None);
        }
        proof {
            assert(self@ == stage_cleanup(stage_seen(m, e)));
        }
        self.bump_creator(event);
        let ghost m1 = self@;
        let round = match self.assign_round(event, graph) {
            Ok(r) => r,
            Err(err) => {
                proof {
                    if count_exact(m) {
                        lemma_stages_keep_count(m, e, 0);
                    }
                }
                return Err(err);
            },
        };
        proof {
            if count_exact(m) {
                lemma_stages_keep_count(m, e, round);
            }
        }
        self.record_round(event, round);
        self.check_optimistic_confirmation(event);
        let ghost m2 = self@;
        let committed = match self.check_commitments(&event.id, round, graph) {
            Ok(c) => c,
            Err(err) => {
                proof {
                    if count_exact(m) {
                        assert(committed_ids(self@) =~= committed_ids(m2));
                    }
                }
                return Err(err);
            },
        };
        let ghost fame = self@.fame;
        proof {
            assert(self@ == (ConsensusModel { fame, ..m2 }));
            if !is_witness_state(m2, event.id) {
                assert(committed@.to_set() =~= Set::<EventId>::empty());
            }
            assert(commit_outcome(m2, graph@, event.id, round, committed@.to_set(), fame));
        }
        self.mark_committed(&committed);
        proof {
            assert(self@ =~= stage_committed(m2, committed@.to_set(), fame));
            if count_exact(m) {
                vstd::seq_lib::seq_to_set_is_finite(committed@);
                lemma_commit_outcome_uncommitted(m2, graph@, event.id, round, committed@.to_set(), fame);
                lemma_commit_keeps_count(m2, committed@.to_set(), fame);
            }
        }
        Ok(committed)
    }
}


/// `r` is the highest current round over all nodes (0 when none).
pub open spec fn is_max_round(m: ConsensusModel, r: u64) -> bool {
    &&& forall|n: NodeId| #[trigger] m.nodes.contains_key(n) ==> m.nodes[n].current_round <= r
    &&& (exists|n: NodeId| #[trigger] m.nodes.contains_key(n) && m.nodes[n].current_round == r) || (r == 0 && forall|
        n: NodeId,
    | !#[trigger] m.nodes.contains_key(n))
}

/// The seed after a timeout into round `new_round`: BLAKE3(seed || round).
pub open spec fn timeout_seed(seed: [u8; 32], new_round: u64) -> [u8; 32] {
    blake3_digest(seed@ + le_bytes_u64(new_round))
}

/// The committed events older than `cutoff` rounds.
pub open spec fn old_committed(m: ConsensusModel, cutoff: u64) -> Set<EventId> {
    Set::new(|id: EventId| committed_in(m, id) && m.rounds.contains_key(id) && m.rounds[id] < cutoff)
}

impl<S: SlashingBackend> ConsensusEngine<S> {
    /// The round timer.
    pub closed spec fn timer(&self) -> RoundTimer {
        self.round_timer
    }

    /// Record an acknowledgment: a pending event becomes acknowledged when
    /// optimistic confirmation is on.
    pub fn record_acknowledgment(&mut self, event_id: EventId)
        requires
            old(self).wf(),
        ensures
            final(self).wf(),
            final(self).backend() == old(self).backend(),
            final(self).timer() == old(self).timer(),
            final(self)@ == (if old(self)@.states.contains_key(event_id) && old(self)@.states[event_id] == ConsensusState::Pending
                && old(self)@.config.optimistic_confirmation {
                ConsensusModel { states: old(self)@.states.insert(event_id, ConsensusState::Acknowledged), ..old(self)@ }
            } else {
                old(self)@
            }),
            count_exact(old(self)@) ==> count_exact(final(self)@),
    {
        let ghost m = self@;
        let pending = match self.event_states.get(&event_id) {
            Some(s) => *s == ConsensusState::Pending,
            None => false,
        };
        if pending && self.config.optimistic_confirmation {
            self.event_states.insert(event_id, ConsensusState::Acknowledged);
            proof {
                if count_exact(m) {
                    lemma_acknowledge_keeps_count(m, event_id);
                }
            }
        }
    }

    /// The consensus state of a processed event.
    pub fn get_state(&self, event_id: &EventId) -> (r: Option<ConsensusState>)
        requires
            self.wf(),
        ensures
            r == (if self@.states.contains_key(*event_id) { Some(self@.states[*event_id]) } else { None::<ConsensusState> }),
    {
        match self.event_states.get(event_id) {
            Some(s) => Some(*s),
            None => None,
        }
    }

    /// The round of a processed event.
    pub fn get_round(&self, event_id: &EventId) -> (r: Option<u64>)
        requires
            self.wf(),
        ensures
            r == (if self@.rounds.contains_key(*event_id) { Some(self@.rounds[*event_id]) } else { None::<u64> }),
    {
        match self.event_rounds.get(event_id) {
            Some(x) => Some(*x),
            None => None,
        }
    }

    /// Number of committed events.
    pub fn committed_count(&self) -> (r: u64)
        ensures
            r == self@.committed_count,
    {
        self.committed_count
    }

    /// The current round of a node (0 when unseen).
    pub fn node_round(&self, node_id: &NodeId) -> (r: u64)
        requires
            self.wf(),
        ensures
            r == info_of(self@, *node_id).current_round,
    {
        self.info(node_id).current_round
    }

    /// The highest current round over all nodes (0 when none).
    pub fn current_round(&self) -> (r: u64)
        requires
            self.wf(),
        ensures
            is_max_round(self@, r),
    {
        proof {
            self.node_info.lemma_entries();
        }
        let n = self.node_info.len();
        let mut best: u64 = 0;
        let mut i: usize = 0;
        while i < n
            invariant
                self.wf(),
                n == self.node_info.entry_seq().len(),
                i <= n,
                forall|j: int| 0 <= j < i ==> (#[trigger] self.node_info.entry_seq()[j]).1.current_round <= best,
                (exists|j: int| 0 <= j < i && (#[trigger] self.node_info.entry_seq()[j]).1.current_round == best) || (best == 0 && i == 0),
            decreases n - i,
        {
            let c = self.node_info.value_at(i).current_round;
            if i == 0 || c > best {
                best = c;
            }
            proof {
                assert(self.node_info.entry_seq()[i as int].1.current_round == c);
            }
            i = i + 1;
        }
        proof {
            self.node_info.lemma_entries();
            assert forall|nd: NodeId| #[trigger] self@.nodes.contains_key(nd) implies self@.nodes[nd].current_round <= best by {
                let j = choose|j: int| 0 <= j < self.node_info.entry_seq().len() && #[trigger] self.node_info.entry_seq()[j].0 == nd;
                assert(self.node_info.entry_seq()[j].1.current_round <= best);
            }
            if n > 0 {
                let j = choose|j: int| 0 <= j < n && (#[trigger] self.node_info.entry_seq()[j]).1.current_round == best;
                let nd = self.node_info.entry_seq()[j].0;
                assert(self@.nodes.contains_key(nd));
            } else {
                assert forall|nd: NodeId| !#[trigger] self@.nodes.contains_key(nd) by {
                    if self@.nodes.contains_key(nd) {
                        let j = choose|j: int| 0 <= j < self.node_info.entry_seq().len() && #[trigger] self.node_info.entry_seq()[j].0 == nd;
                    }
                }
            }
        }
        best
    }

    /// The ids of the committed events, each once.
    pub fn get_committed(&self) -> (r: Vec<EventId>)
        requires
            self.wf(),
        ensures
            r@.no_duplicates(),
            forall|id: EventId| #[trigger] r@.contains(id) <==> committed_in(self@, id),
    {
        proof {
            self.event_states.lemma_entries();
        }
        let n = self.event_states.len();
        let mut r: Vec<EventId> = Vec::new();
        let mut i: usize = 0;
        while i < n
            invariant
                self.wf(),
                n == self.event_states.entry_seq().len(),
                i <= n,
                r@.no_duplicates(),
                forall|id: EventId| #[trigger] r@.contains(id) <==> exists|j: int| 0 <= j < i && #[trigger] self.event_states.entry_seq()[j].0 == id
                    && self.event_states.entry_seq()[j].1 == ConsensusState::Committed,
            decreases n - i,
        {
            proof {
                self.event_states.lemma_entries();
            }
            let id = *self.event_states.key_at(i);
            let st = *self.event_states.value_at(i);
            let ghost r0 = r@;
            if st == ConsensusState::Committed {
                proof {
                    assert(!r0.contains(id)) by {
                        if r0.contains(id) {
                            let j = choose|j: int| 0 <= j < i && #[trigger] self.event_states.entry_seq()[j].0 == id
                                && self.event_states.entry_seq()[j].1 == ConsensusState::Committed;
                            assert(self.event_states.entry_seq()[j].0 != self.event_states.entry_seq()[i as int].0);
                        }
                    }
                }
                r.push(id);
            }
            proof {
                assert forall|x: EventId| #[trigger] r@.contains(x) <==> exists|j: int| 0 <= j < i + 1 && #[trigger] self.event_states.entry_seq()[j].0 == x
                    && self.event_states.entry_seq()[j].1 == ConsensusState::Committed by {
                    if r@.contains(x) {
                        let q = choose|q: int| 0 <= q < r@.len() && r@[q] == x;
                        if q < r0.len() {
                            assert(r0[q] == x);
                            assert(r0.contains(x));
                        } else {
                            assert(self.event_states.entry_seq()[i as int].0 == x);
                        }
                    }
                    if exists|j: int| 0 <= j < i + 1 && #[trigger] self.event_states.entry_seq()[j].0 == x
                        && self.event_states.entry_seq()[j].1 == ConsensusState::Committed {
                        let j = choose|j: int| 0 <= j < i + 1 && #[trigger] self.event_states.entry_seq()[j].0 == x
                            && self.event_states.entry_seq()[j].1 == ConsensusState::Committed;
                        if j < i {
                            assert(r0.contains(x));
                            let q = choose|q: int| 0 <= q < r0.len() && r0[q] == x;
                            assert(r@[q] == x);
                        } else {
                            assert(r@[r@.len() - 1] == x);
                        }
                    }
                }
            }
            i = i + 1;
        }
        proof {
            self.event_states.lemma_entries();
            assert forall|id: EventId| #[trigger] r@.contains(id) <==> committed_in(self@, id) by {
                if committed_in(self@, id) {
                    let j = choose|j: int| 0 <= j < self.event_states.entry_seq().len() && #[trigger] self.event_states.entry_seq()[j].0 == id;
                    assert(self.event_states.entry_seq()[j].1 == self@.states[id]);
                    assert(self.event_states.entry_seq()[j].1 == ConsensusState::Committed);
                }
                if r@.contains(id) {
                    let j = choose|j: int| 0 <= j < n && #[trigger] self.event_states.entry_seq()[j].0 == id
                        && self.event_states.entry_seq()[j].1 == ConsensusState::Committed;
                    assert(self@.states.contains_key(id));
                    assert(self@.states[id] == self.event_states.entry_seq()[j].1);
                }
            }
        }
        r
    }

    /// Register a validator with the slashing backend.
    pub fn register_validator(&mut self, node: NodeId, stake: u64)
        requires
            old(self).wf(),
        ensures
            final(self).wf(),
            final(self)@ == old(self)@,
            old(self).backend().registered(&final(self).backend(), node, stake),
    {
        self.slashing.register_validator(node, stake);
    }

    /// Whether the slashing backend reports the node slashed.
    pub fn is_slashed(&self, node: &NodeId) -> (r: bool)
        requires
            self.wf(),
        ensures
            r == self.backend().slashed(*node),
    {
        self.slashing.is_slashed(node)
    }

    /// Replace the round seed.
    pub fn update_round_seed(&mut self, new_seed: [u8; 32])
        requires
            old(self).wf(),
        ensures
            final(self).wf(),
            final(self).timer() == old(self).timer(),
            final(self).backend() == old(self).backend(),
            final(self)@ == (ConsensusModel {
                config: ConsensusConfig { round_seed: new_seed, ..old(self)@.config },
                ..old(self)@
            }),
    {
        self.config.round_seed = new_seed;
    }

    /// Derive the seed for `new_round` after a timeout: BLAKE3(seed || round).
    fn update_round_seed_from_timeout(&mut self, new_round: u64)
        requires
            old(self).wf(),
        ensures
            final(self).wf(),
            final(self).timer() == old(self).timer(),
            final(self).backend() == old(self).backend(),
            final(self)@ == (ConsensusModel {
                config: ConsensusConfig { round_seed: timeout_seed(old(self)@.config.round_seed, new_round), ..old(self)@.config },
                ..old(self)@
            }),
    {
        let mut buf: Vec<u8> = Vec::new();
        append_bytes(&mut buf, &self.config.round_seed);
        push_le_u64(&mut buf, new_round);
        proof {
            assert(buf@ =~= self@.config.round_seed@ + le_bytes_u64(new_round));
        }
        let seed = blake3_hash(buf.as_slice());
        self.update_round_seed(seed);
    }

    /// Move to the next round after a timeout: the seed is re-derived for
    /// the round after the current one.
    pub fn advance_round(&mut self)
        requires
            old(self).wf(),
        ensures
            final(self).wf(),
            final(self).timer() == old(self).timer(),
            final(self).backend() == old(self).backend(),
            exists|cur: u64| #[trigger] is_max_round(old(self)@, cur) && final(self)@ == (ConsensusModel {
                config: ConsensusConfig { round_seed: timeout_seed(old(self)@.config.round_seed, inc_sat(cur)), ..old(self)@.config },
                ..old(self)@
            }),
    {
        let current = self.current_round();
        let next = if current == u64::MAX { u64::MAX } else { current + 1 };
        self.update_round_seed_from_timeout(next);
    }

    /// A round committed in time: the timer resets and starts the next round.
    pub fn round_committed(&mut self)
        requires
            old(self).wf(),
        ensures
            final(self).wf(),
            final(self)@ == old(self)@,
            final(self).backend() == old(self).backend(),
            final(self).timer().timeouts_spec() == 0,
            exists|cur: u64| #[trigger] is_max_round(old(self)@, cur) && final(self).timer().round_spec() == inc_sat(cur),
    {
        self.round_timer.round_succeeded();
        let cur = self.current_round();
        let next = if cur == u64::MAX { u64::MAX } else { cur + 1 };
        self.round_timer.start_round(next);
        proof {
            assert(is_max_round(old(self)@, cur));
        }
    }

    /// What a round timeout does: count it, advance the round (new seed) and
    /// start timing the next round.
    pub fn on_round_timeout(&mut self)
        requires
            old(self).wf(),
        ensures
            final(self).wf(),
            final(self).backend() == old(self).backend(),
            exists|cur: u64| #[trigger] is_max_round(old(self)@, cur) && final(self)@ == (ConsensusModel {
                config: ConsensusConfig { round_seed: timeout_seed(old(self)@.config.round_seed, inc_sat(cur)), ..old(self)@.config },
                ..old(self)@
            }) && final(self).timer().round_spec() == inc_sat(cur),
            final(self).timer().timeouts_spec() == inc_sat32(old(self).timer().timeouts_spec()),
    {
        let _ = self.round_timer.round_timed_out();
        let current = self.current_round();
        let ghost m0 = self@;
        self.advance_round();
        let next = if current == u64::MAX { u64::MAX } else { current + 1 };
        self.round_timer.start_round(next);
        proof {
            let cur2 = choose|cur2: u64| #[trigger] is_max_round(m0, cur2) && self@ == (ConsensusModel {
                config: ConsensusConfig { round_seed: timeout_seed(m0.config.round_seed, inc_sat(cur2)), ..m0.config },
                ..m0
            });
            lemma_max_round_unique(m0, current, cur2);
            assert(is_max_round(old(self)@, current));
        }
    }

    /// Check the round timer: when the round has timed out, do what a
    /// timeout does (see `on_round_timeout`) and return true.
    pub fn check_round_timeout(&mut self) -> (r: bool)
        requires
            old(self).wf(),
        ensures
            final(self).wf(),
            final(self).backend() == old(self).backend(),
            exists|elapsed: Duration| r == (duration_nanos(elapsed) >= old(self).timer().effective_nanos()),
            !r ==> final(self)@ == old(self)@ && final(self).timer() == old(self).timer(),
            r ==> exists|cur: u64| #[trigger] is_max_round(old(self)@, cur) && final(self)@ == (ConsensusModel {
                config: ConsensusConfig { round_seed: timeout_seed(old(self)@.config.round_seed, inc_sat(cur)), ..old(self)@.config },
                ..old(self)@
            }) && final(self).timer().round_spec() == inc_sat(cur),
    {
        let timed_out = self.round_timer.is_timed_out();
        if timed_out {
            self.on_round_timeout();
            return true;
        }
        false
    }
}

/// The highest round is unique.
pub proof fn lemma_max_round_unique(m: ConsensusModel, a: u64, b: u64)
    requires
        is_max_round(m, a),
        is_max_round(m, b),
    ensures
        a == b,
{
    if exists|n: NodeId| #[trigger] m.nodes.contains_key(n) && m.nodes[n].current_round == a {
        let n = choose|n: NodeId| #[trigger] m.nodes.contains_key(n) && m.nodes[n].current_round == a;
        if exists|k: NodeId| #[trigger] m.nodes.contains_key(k) && m.nodes[k].current_round == b {
            let k = choose|k: NodeId| #[trigger] m.nodes.contains_key(k) && m.nodes[k].current_round == b;
            assert(m.nodes[n].current_round <= b);
            assert(m.nodes[k].current_round <= a);
        } else {
            assert(!m.nodes.contains_key(n));
        }
    } else {
        if exists|k: NodeId| #[trigger] m.nodes.contains_key(k) && m.nodes[k].current_round == b {
            let k = choose|k: NodeId| #[trigger] m.nodes.contains_key(k) && m.nodes[k].current_round == b;
            assert(!m.nodes.contains_key(k));
        }
    }
}

/// Saturating increment of a count.
pub open spec fn inc_sat32(x: u32) -> u32 {
    if x == u32::MAX {
        u32::MAX
    } else {
        (x + 1) as u32
    }
}


/// The engine after removing the old committed events `c` and the
/// witness records of rounds up to `keep_after`.
pub open spec fn cleaned_committed(m: ConsensusModel, c: Set<EventId>, keep_after: u64) -> ConsensusModel {
    ConsensusModel {
        states: m.states.remove_keys(c),
        rounds: m.rounds.remove_keys(c),
        fame: m.fame.remove_keys(c),
        witnesses: Map::new(|r: u64| m.witnesses.contains_key(r) && r > keep_after, |r: u64| m.witnesses[r]),
        ..m
    }
}

impl<S: SlashingBackend> ConsensusEngine<S> {
    /// Remove committed events whose round is older than `threshold`
    /// (default `DEFAULT_COMMITTED_ROUND_THRESHOLD`) rounds before the
    /// current round, with their round and fame records, and the witness
    /// records of rounds that old; nothing when the current round is not past
    /// the threshold. Returns the number of events removed.
    pub fn cleanup_old_committed(&mut self, threshold: Option<u64>) -> (r: usize)
        requires
            old(self).wf(),
        ensures
            final(self).wf(),
            final(self).backend() == old(self).backend(),
            final(self).timer() == old(self).timer(),
            exists|cur: u64| #[trigger] is_max_round(old(self)@, cur) && ({
                let t = match threshold {
                    Some(x) => x,
                    None => DEFAULT_COMMITTED_ROUND_THRESHOLD,
                };
                &&& cur <= t ==> r == 0 && final(self)@ == old(self)@
                &&& cur > t ==> {
                    let c = old_committed(old(self)@, (cur - t) as u64);
                    &&& r == c.len()
                    &&& final(self)@ == cleaned_committed(old(self)@, c, (cur - t) as u64)
                }
            }),
    {
        let t = match threshold {
            Some(x) => x,
            None => DEFAULT_COMMITTED_ROUND_THRESHOLD,
        };
        let cur = self.current_round();
        if cur <= t {
            return 0;
        }
        let cutoff = cur - t;
        let ghost m = self@;
        let ghost c = old_committed(m, cutoff);
        proof {
            self.event_states.lemma_entries();
        }
        let n = self.event_states.len();
        let mut to_remove: Vec<EventId> = Vec::new();
        let mut i: usize = 0;
        while i < n
            invariant
                self.round_timer == old(self).round_timer,
                self.wf(),
                self@ == m,
                c == old_committed(m, cutoff),
                n == self.event_states.entry_seq().len(),
                i <= n,
                to_remove@.no_duplicates(),
                forall|x: EventId| #[trigger] to_remove@.contains(x) <==> exists|j: int| 0 <= j < i && #[trigger] self.event_states.entry_seq()[j].0 == x && c.contains(x),
            decreases n - i,
        {
            proof {
                self.event_states.lemma_entries();
            }
            let id = *self.event_states.key_at(i);
            let st = *self.event_states.value_at(i);
            proof {
                assert(self.event_states@.contains_key(id));
            }
            let take = st == ConsensusState::Committed && match self.event_rounds.get(&id) {
                Some(rd) => *rd < cutoff,
                None => false,
            };
            let ghost t0 = to_remove@;
            if take {
                proof {
                    assert(c.contains(id));
                    assert(!t0.contains(id)) by {
                        if t0.contains(id) {
                            let j = choose|j: int| 0 <= j < i && #[trigger] self.event_states.entry_seq()[j].0 == id && c.contains(id);
                            assert(self.event_states.entry_seq()[j].0 != self.event_states.entry_seq()[i as int].0);
                        }
                    }
                }
                to_remove.push(id);
            } else {
                proof {
                    assert(!c.contains(id));
                }
            }
            proof {
                assert forall|x: EventId| #[trigger] to_remove@.contains(x) <==> exists|j: int| 0 <= j < i + 1 && #[trigger] self.event_states.entry_seq()[j].0 == x && c.contains(x) by {
                    if to_remove@.contains(x) {
                        let q = choose|q: int| 0 <= q < to_remove@.len() && to_remove@[q] == x;
                        if q < t0.len() {
                            assert(t0[q] == x);
                            assert(t0.contains(x));
                        } else {
                            assert(self.event_states.entry_seq()[i as int].0 == x);
                        }
                    }
                    if exists|j: int| 0 <= j < i + 1 && #[trigger] self.event_states.entry_seq()[j].0 == x && c.contains(x) {
                        let j = choose|j: int| 0 <= j < i + 1 && #[trigger] self.event_states.entry_seq()[j].0 == x && c.contains(x);
                        if j < i {
                            assert(t0.contains(x));
                            let q = choose|q: int| 0 <= q < t0.len() && t0[q] == x;
                            assert(to_remove@[q] == x);
                        } else {
                            assert(to_remove@[to_remove@.len() - 1] == x);
                        }
                    }
                }
            }
            i = i + 1;
        }
        proof {
            self.event_states.lemma_entries();
            assert forall|x: EventId| #[trigger] to_remove@.contains(x) <==> c.contains(x) by {
                if c.contains(x) {
                    let j = choose|j: int| 0 <= j < self.event_states.entry_seq().len() && #[trigger] self.event_states.entry_seq()[j].0 == x;
                }
            }
            assert(to_remove@.to_set() =~= c);
            to_remove@.unique_seq_to_set();
            assert(to_remove@.take(0).to_set() =~= Set::<EventId>::empty());
            assert(m.states.remove_keys(Set::<EventId>::empty()) =~= m.states);
            assert(m.rounds.remove_keys(Set::<EventId>::empty()) =~= m.rounds);
            assert(m.fame.remove_keys(Set::<EventId>::empty()) =~= m.fame);
        }
        let count = to_remove.len();
        let mut j: usize = 0;
        while j < count
            invariant
                self.round_timer == old(self).round_timer,
                self.wf(),
                self.backend() == old(self).backend(),
                count == to_remove@.len(),
                j <= count,
                self@ == (ConsensusModel {
                    states: m.states.remove_keys(to_remove@.take(j as int).to_set()),
                    rounds: m.rounds.remove_keys(to_remove@.take(j as int).to_set()),
                    fame: m.fame.remove_keys(to_remove@.take(j as int).to_set()),
                    ..m
                }),
            decreases count - j,
        {
            let id = to_remove[j];
            self.event_states.remove(&id);
            self.event_rounds.remove(&id);
            self.fame_status.remove(&id);
            proof {
                assert(to_remove@.take(j + 1) =~= to_remove@.take(j as int).push(id));
                to_remove@.take(j as int).lemma_push_to_set_commute(id);
                let s1 = to_remove@.take(j + 1).to_set();
                assert(self@.states =~= m.states.remove_keys(s1));
                assert(self@.rounds =~= m.rounds.remove_keys(s1));
                assert(self@.fame =~= m.fame.remove_keys(s1));
            }
            j = j + 1;
        }
        proof {
            assert(to_remove@.take(count as int) =~= to_remove@);
        }
        let ghost mid = self@;
        let mut kept: VecMap<u64, Vec<EventId>> = VecMap::new();
        proof {
            self.round_witnesses.lemma_entries();
        }
        let nw = self.round_witnesses.len();
        let mut k: usize = 0;
        while k < nw
            invariant
                self.round_timer == old(self).round_timer,
                self.wf(),
                self@ == mid,
                kept.wf(),
                nw == self.round_witnesses.entry_seq().len(),
                k <= nw,
                forall|r: u64| #[trigger] kept@.contains_key(r) ==> kept@[r]@.no_duplicates(),
                forall|r: u64| #[trigger] kept@.contains_key(r) <==> (exists|q: int| 0 <= q < k && #[trigger] self.round_witnesses.entry_seq()[q].0 == r) && r > cutoff,
                forall|r: u64| #[trigger] kept@.contains_key(r) ==> kept@[r]@ == self.round_witnesses@[r]@,
            decreases nw - k,
        {
            proof {
                self.round_witnesses.lemma_entries();
            }
            let r = *self.round_witnesses.key_at(k);
            proof {
                assert(self.round_witnesses@.contains_key(r));
            }
            if r > cutoff {
                let ws = copy_ids(self.round_witnesses.value_at(k));
                kept.insert(r, ws);
            }
            proof {
                assert forall|x: u64| #[trigger] kept@.contains_key(x) <==> (exists|q: int| 0 <= q < k + 1 && #[trigger] self.round_witnesses.entry_seq()[q].0 == x) && x > cutoff by {
                    if exists|q: int| 0 <= q < k + 1 && #[trigger] self.round_witnesses.entry_seq()[q].0 == x {
                        let q = choose|q: int| 0 <= q < k + 1 && #[trigger] self.round_witnesses.entry_seq()[q].0 == x;
                        if q == k {
                            assert(x == r);
                        }
                    }
                    if x == r {
                        assert(self.round_witnesses.entry_seq()[k as int].0 == x);
                    }
                }
            }
            k = k + 1;
        }
        proof {
            self.round_witnesses.lemma_entries();
            assert forall|x: u64| #[trigger] kept@.contains_key(x) <==> self.round_witnesses@.contains_key(x) && x > cutoff by {
                if self.round_witnesses@.contains_key(x) {
                    let q = choose|q: int| 0 <= q < self.round_witnesses.entry_seq().len() && #[trigger] self.round_witnesses.entry_seq()[q].0 == x;
                }
            }
        }
        self.round_witnesses = kept;
        proof {
            assert(self@.witnesses =~= cleaned_committed(m, c, cutoff).witnesses);
            assert(self@ == cleaned_committed(m, c, cutoff));
            assert(is_max_round(old(self)@, cur));
        }
        count
    }

    /// The famous witnesses with their rounds, each once.
    #[verifier::spinoff_prover]
    pub fn get_famous_witnesses(&self) -> (r: Vec<(EventId, u64)>)
        requires
            self.wf(),
        ensures
            r@.map_values(|p: (EventId, u64)| p.0).no_duplicates(),
            forall|i: int| 0 <= i < r@.len() ==> #[trigger] self@.fame.contains_key(r@[i].0) && self@.fame[r@[i].0]
                && self@.rounds.contains_key(r@[i].0) && self@.rounds[r@[i].0] == r@[i].1,
            forall|id: EventId| #[trigger] self@.fame.contains_key(id) && self@.fame[id] && self@.rounds.contains_key(id)
                ==> exists|i: int| 0 <= i < r@.len() && r@[i].0 == id,
    {
        proof {
            self.fame_status.lemma_entries();
        }
        let n = self.fame_status.len();
        let mut r: Vec<(EventId, u64)> = Vec::new();
        let mut i: usize = 0;
        while i < n
            invariant
                self.wf(),
                n == self.fame_status.entry_seq().len(),
                i <= n,
                r@.map_values(|p: (EventId, u64)| p.0).no_duplicates(),
                forall|q: int| 0 <= q < r@.len() ==> #[trigger] self@.fame.contains_key(r@[q].0) && self@.fame[r@[q].0]
                    && self@.rounds.contains_key(r@[q].0) && self@.rounds[r@[q].0] == r@[q].1,
                forall|q: int| #![trigger r@[q]] 0 <= q < r@.len() ==> exists|j: int| 0 <= j < i && #[trigger] self.fame_status.entry_seq()[j].0 == r@[q].0,
                forall|j: int| 0 <= j < i && #[trigger] self.fame_status.entry_seq()[j].1 && self@.rounds.contains_key(self.fame_status.entry_seq()[j].0)
                    ==> exists|q: int| 0 <= q < r@.len() && r@[q].0 == self.fame_status.entry_seq()[j].0,
            decreases n - i,
        {
            proof {
                self.fame_status.lemma_entries();
            }
            let id = *self.fame_status.key_at(i);
            let famous = *self.fame_status.value_at(i);
            proof {
                assert(self.fame_status@.contains_key(id));
            }
            let ghost r0 = r@;
            if famous {
                match self.event_rounds.get(&id) {
                    Some(rd) => {
                        r.push((id, *rd));
                        proof {
                            let ids0 = r0.map_values(|p: (EventId, u64)| p.0);
                            assert(r@.map_values(|p: (EventId, u64)| p.0) =~= ids0.push(id));
                            assert forall|q: int| 0 <= q < r0.len() implies r0[q].0 != id by {
                                let j = choose|j: int| 0 <= j < i && #[trigger] self.fame_status.entry_seq()[j].0 == r0[q].0;
                                assert(self.fame_status.entry_seq()[j].0 != self.fame_status.entry_seq()[i as int].0);
                            }
                            assert forall|a: int, b: int| 0 <= a < ids0.len() + 1 && 0 <= b < ids0.len() + 1 && a != b implies ids0.push(id)[a] != ids0.push(id)[b] by {
                                if a < ids0.len() && b < ids0.len() {
                                } else if a < ids0.len() {
                                    assert(ids0[a] == r0[a].0);
                                } else {
                                    assert(ids0[b] == r0[b].0);
                                }
                            }
                        }
                    },
                    None => {},
                }
            }
            proof {
                assert forall|q: int| 0 <= q < r@.len() implies #[trigger] self@.fame.contains_key(r@[q].0) && self@.fame[r@[q].0]
                    && self@.rounds.contains_key(r@[q].0) && self@.rounds[r@[q].0] == r@[q].1 by {
                    if q < r0.len() {
                        assert(r@[q] == r0[q]);
                    }
                }
                assert forall|q: int| #![trigger r@[q]] 0 <= q < r@.len() implies exists|j: int| 0 <= j < i + 1 && #[trigger] self.fame_status.entry_seq()[j].0 == r@[q].0 by {
                    if q < r0.len() {
                        assert(r@[q] == r0[q]);
                    } else {
                        assert(self.fame_status.entry_seq()[i as int].0 == r@[q].0);
                    }
                }
                assert forall|j: int| 0 <= j < i + 1 && #[trigger] self.fame_status.entry_seq()[j].1 && self@.rounds.contains_key(self.fame_status.entry_seq()[j].0)
                    implies exists|q: int| 0 <= q < r@.len() && r@[q].0 == self.fame_status.entry_seq()[j].0 by {
                    if j == i {
                        assert(r@[r@.len() - 1].0 == id);
                    } else {
                        let q = choose|q: int| 0 <= q < r0.len() && r0[q].0 == self.fame_status.entry_seq()[j].0;
                        assert(r@[q] == r0[q]);
                    }
                }
            }
            i = i + 1;
        }
        proof {
            self.fame_status.lemma_entries();
            assert forall|id: EventId| #[trigger] self@.fame.contains_key(id) && self@.fame[id] && self@.rounds.contains_key(id)
                implies exists|q: int| 0 <= q < r@.len() && r@[q].0 == id by {
                let j = choose|j: int| 0 <= j < self.fame_status.entry_seq().len() && #[trigger] self.fame_status.entry_seq()[j].0 == id;
                assert(self.fame_status.entry_seq()[j].1);
            }
        }
        r
    }
}


/// The map a list of pairs builds, later pairs overriding earlier ones.
pub open spec fn pairs_map(s: Seq<((NodeId, u64), EventId)>) -> Map<(NodeId, u64), EventId>
    decreases s.len(),
{
    if s.len() == 0 {
        Map::empty()
    } else {
        pairs_map(s.drop_last()).insert(s.last().0, s.last().1)
    }
}

/// The engine restored from a snapshot (of a supported version).
pub open spec fn restored(m: ConsensusModel, st: PersistedConsensusState) -> ConsensusModel {
    ConsensusModel {
        config: ConsensusConfig { round_seed: st.round_seed, ..m.config },
        committed_count: st.committed_events,
        nodes: Map::new(
            |n: NodeId| m.nodes.contains_key(n) || st.active_validators@.contains(n),
            |n: NodeId|
                if st.active_validators@.contains(n) {
                    NodeConsensusInfo {
                        current_round: st.current_round,
                        last_witness_round: inc_sat(st.current_round),
                        ..info_of(m, n)
                    }
                } else {
                    m.nodes[n]
                },
        ),
        first_seen: if st.version >= 2 {
            pairs_map(st.first_event_for_sequence@)
        } else {
            m.first_seen
        },
        ..m
    }
}

impl<S: SlashingBackend> ConsensusEngine<S> {
    /// Restore from a snapshot: the round seed, the committed count, every
    /// listed validator at the snapshot's round (its next witness round one
    /// later) and, from version 2 on, the first-seen table; the timer starts
    /// the snapshot's round. Versions other than 1 and 2 are refused with
    /// `Config`, changing nothing.
    pub fn restore_state(&mut self, state: PersistedConsensusState) -> (r: Result<(), ConsensusError>)
        requires
            old(self).wf(),
        ensures
            final(self).wf(),
            final(self).backend() == old(self).backend(),
            (state.version < 1 || state.version > 2) ==> (r matches Err(e) && e is Config && final(self)@ == old(self)@),
            !(state.version < 1 || state.version > 2) ==> (r is Ok && final(self)@ == restored(old(self)@, state)
                && final(self).timer().round_spec() == state.current_round),
    {
        if state.version < 1 || state.version > 2 {
            return Err(ConsensusError::Config(String::from_str("Unsupported consensus state version")));
        }
        let ghost m = self@;
        self.config.round_seed = state.round_seed;
        self.committed_count = state.committed_events;
        let cr = state.current_round;
        let next = if cr == u64::MAX { u64::MAX } else { cr + 1 };
        let vals = &state.active_validators;
        let mut i: usize = 0;
        while i < vals.len()
            invariant
                self.wf(),
                self.backend() == old(self).backend(),
                i <= vals@.len(),
                next == inc_sat(cr),
                self@ == (ConsensusModel {
                    nodes: self@.nodes,
                    config: ConsensusConfig { round_seed: state.round_seed, ..m.config },
                    committed_count: state.committed_events,
                    ..m
                }),
                forall|n: NodeId| #[trigger] self@.nodes.contains_key(n) <==> m.nodes.contains_key(n) || vals@.take(i as int).contains(n),
                forall|n: NodeId| #[trigger] self@.nodes.contains_key(n) ==> self@.nodes[n] == (if vals@.take(i as int).contains(n) {
                    NodeConsensusInfo { current_round: cr, last_witness_round: next, ..info_of(m, n) }
                } else {
                    m.nodes[n]
                }),
            decreases vals@.len() - i,
        {
            let v = vals[i];
            let info = self.info(&v);
            proof {
                assert(vals@.take(i + 1) =~= vals@.take(i as int).push(v));
                assert(info == (if vals@.take(i as int).contains(v) {
                    NodeConsensusInfo { current_round: cr, last_witness_round: next, ..info_of(m, v) }
                } else {
                    info_of(m, v)
                }));
            }
            self.node_info.insert(v, NodeConsensusInfo { current_round: cr, last_witness_round: next, ..info });
            proof {
                assert forall|n: NodeId| #[trigger] self@.nodes.contains_key(n) <==> m.nodes.contains_key(n) || vals@.take(i + 1).contains(n) by {
                    if vals@.take(i + 1).contains(n) && n != v {
                        let q = choose|q: int| 0 <= q < i + 1 && #[trigger] vals@.take(i + 1)[q] == n;
                        assert(vals@.take(i as int)[q] == n);
                    }
                    if vals@.take(i as int).contains(n) {
                        let q = choose|q: int| 0 <= q < i && #[trigger] vals@.take(i as int)[q] == n;
                        assert(vals@.take(i + 1)[q] == n);
                    }
                    if n == v {
                        assert(vals@.take(i + 1)[i as int] == v);
                    }
                }
                assert forall|n: NodeId| #[trigger] self@.nodes.contains_key(n) implies self@.nodes[n] == (if vals@.take(i + 1).contains(n) {
                    NodeConsensusInfo { current_round: cr, last_witness_round: next, ..info_of(m, n) }
                } else {
                    m.nodes[n]
                }) by {
                    if n == v {
                        assert(vals@.take(i + 1)[i as int] == v);
                    } else {
                        if vals@.take(i + 1).contains(n) {
                            let q = choose|q: int| 0 <= q < i + 1 && #[trigger] vals@.take(i + 1)[q] == n;
                            assert(vals@.take(i as int)[q] == n);
                        }
                        if vals@.take(i as int).contains(n) {
                            let q = choose|q: int| 0 <= q < i && #[trigger] vals@.take(i as int)[q] == n;
                            assert(vals@.take(i + 1)[q] == n);
                        }
                    }
                }
            }
            i = i + 1;
        }
        proof {
            assert(vals@.take(vals@.len() as int) =~= vals@);
            assert(self@.nodes =~= restored(m, state).nodes);
        }
        if state.version >= 2 {
            let pairs = &state.first_event_for_sequence;
            let mut fs: VecMap<(NodeId, u64), EventId> = VecMap::new();
            let mut k: usize = 0;
            proof {
                assert(pairs@.take(0) =~= Seq::<((NodeId, u64), EventId)>::empty());
                assert(fs@ =~= pairs_map(pairs@.take(0)));
            }
            while k < pairs.len()
                invariant
                    fs.wf(),
                    k <= pairs@.len(),
                    fs@ == pairs_map(pairs@.take(k as int)),
                decreases pairs@.len() - k,
            {
                let (key, id) = pairs[k];
                fs.insert(key, id);
                proof {
                    assert(pairs@.take(k + 1).drop_last() =~= pairs@.take(k as int));
                    assert(pairs@.take(k + 1).last() == pairs@[k as int]);
                }
                k = k + 1;
            }
            proof {
                assert(pairs@.take(pairs@.len() as int) =~= pairs@);
            }
            self.first_event_for_sequence = fs;
        }
        self.round_timer.start_round(cr);
        proof {
            assert(self@ == restored(m, state));
        }
        Ok(())
    }

    /// A snapshot of the engine for persistence (format version 2).
    #[verifier::spinoff_prover]
    pub fn snapshot_state(&self) -> (r: PersistedConsensusState)
        requires
            self.wf(),
        ensures
            is_max_round(self@, r.current_round),
            r.round_seed == self@.config.round_seed,
            r.committed_events == self@.committed_count,
            r.last_finalized_round == (if r.current_round >= self@.config.commit_delay_rounds {
                (r.current_round - self@.config.commit_delay_rounds) as u64
            } else {
                0
            }),
            r.active_validators@.no_duplicates(),
            r.active_validators@.to_set() == self@.nodes.dom(),
            pairs_map(r.first_event_for_sequence@) == self@.first_seen,
            r.version == 2,
            forall|i: int| 0 <= i < r.equivocation_tracking@.len() ==> #[trigger] self@.first_seen.contains_key(r.equivocation_tracking@[i]),
            forall|i: int, k: (NodeId, u64)| 0 <= i < r.equivocation_tracking@.len() && #[trigger] self@.first_seen.contains_key(k)
                && k.0 == #[trigger] r.equivocation_tracking@[i].0 ==> k.1 <= r.equivocation_tracking@[i].1,
            forall|k: (NodeId, u64)| #[trigger] self@.first_seen.contains_key(k) ==> exists|i: int|
                0 <= i < r.equivocation_tracking@.len() && r.equivocation_tracking@[i].0 == k.0,
    {
        let cur = self.current_round();
        let delay = self.config.commit_delay_rounds;
        let last_finalized = if cur >= delay { cur - delay } else { 0 };
        proof {
            self.node_info.lemma_entries();
            self.first_event_for_sequence.lemma_entries();
        }
        let nn = self.node_info.len();
        let mut validators: Vec<NodeId> = Vec::new();
        let mut i: usize = 0;
        while i < nn
            invariant
                self.wf(),
                nn == self.node_info.entry_seq().len(),
                i <= nn,
                validators@ == self.node_info.key_seq().take(i as int),
            decreases nn - i,
        {
            validators.push(*self.node_info.key_at(i));
            i = i + 1;
            proof {
                assert(validators@ =~= self.node_info.key_seq().take(i as int));
            }
        }
        proof {
            self.node_info.lemma_entries();
            assert(validators@ =~= self.node_info.key_seq());
            assert forall|a: int, b: int| 0 <= a < validators@.len() && 0 <= b < validators@.len() && a != b implies validators@[a] != validators@[b] by {
                assert(validators@[a] == self.node_info.entry_seq()[a].0);
                assert(validators@[b] == self.node_info.entry_seq()[b].0);
            }
        }
        let nf = self.first_event_for_sequence.len();
        let mut pairs: Vec<((NodeId, u64), EventId)> = Vec::new();
        let mut best: VecMap<NodeId, u64> = VecMap::new();
        let mut j: usize = 0;
        while j < nf
            invariant
                self.wf(),
                best.wf(),
                nf == self.first_event_for_sequence.entry_seq().len(),
                j <= nf,
                pairs@ == self.first_event_for_sequence.entry_seq().take(j as int),
                forall|n: NodeId| #[trigger] best@.contains_key(n) ==> exists|q: int| 0 <= q < j && #[trigger] self.first_event_for_sequence.entry_seq()[q].0 == (n, best@[n]),
                forall|q: int| 0 <= q < j ==> #[trigger] best@.contains_key(self.first_event_for_sequence.entry_seq()[q].0.0)
                    && self.first_event_for_sequence.entry_seq()[q].0.1 <= best@[self.first_event_for_sequence.entry_seq()[q].0.0],
            decreases nf - j,
        {
            let key = *self.first_event_for_sequence.key_at(j);
            let id = *self.first_event_for_sequence.value_at(j);
            pairs.push((key, id));
            let (n, sq) = key;
            let prev = best.get(&n);
            let upd = match prev {
                Some(b) => *b < sq,
                None => true,
            };
            let ghost old_best = best@;
            proof {
                assert forall|q: int| 0 <= q < j implies #[trigger] old_best.contains_key(self.first_event_for_sequence.entry_seq()[q].0.0)
                    && self.first_event_for_sequence.entry_seq()[q].0.1 <= old_best[self.first_event_for_sequence.entry_seq()[q].0.0] by {
                    assert(best@.contains_key(self.first_event_for_sequence.entry_seq()[q].0.0));
                }
            }
            if upd {
                best.insert(n, sq);
            }
            proof {
                assert(pairs@ =~= self.first_event_for_sequence.entry_seq().take(j + 1));
                assert(self.first_event_for_sequence.entry_seq()[j as int].0 == key);
                let es = self.first_event_for_sequence.entry_seq();
                assert forall|q: int| 0 <= q < j + 1 implies #[trigger] best@.contains_key(es[q].0.0) && es[q].0.1 <= best@[es[q].0.0] by {
                    if q == j {
                        assert(es[q].0 == (n, sq));
                    } else {
                        let k0 = es[q].0.0;
                        assert(old_best.contains_key(self.first_event_for_sequence.entry_seq()[q].0.0));
                        assert(old_best.contains_key(k0) && es[q].0.1 <= old_best[k0]);
                        if upd && k0 == n {
                            assert(best@[k0] == sq);
                        } else {
                            assert(best@[k0] == old_best[k0]);
                        }
                        assert(best@.contains_key(k0));
                    }
                }
                assert forall|x: NodeId| #[trigger] best@.contains_key(x) implies exists|q: int| 0 <= q < j + 1 && #[trigger] self.first_event_for_sequence.entry_seq()[q].0 == (x, best@[x]) by {
                    if x == n && upd {
                        assert(self.first_event_for_sequence.entry_seq()[j as int].0 == (x, best@[x]));
                    }
                }
            }
            j = j + 1;
        }
        proof {
            self.first_event_for_sequence.lemma_entries();
            assert(pairs@ =~= self.first_event_for_sequence.entry_seq());
        }
        let ghost fse = self.first_event_for_sequence.entry_seq();
        proof {
            lemma_pairs_map_entries(fse, self@.first_seen);
        }
        proof {
            best.lemma_entries();
        }
        let nb = best.len();
        let mut tracking: Vec<(NodeId, u64)> = Vec::new();
        let mut k: usize = 0;
        while k < nb
            invariant
                best.wf(),
                nb == best.entry_seq().len(),
                k <= nb,
                tracking@ == best.entry_seq().take(k as int),
            decreases nb - k,
        {
            tracking.push((*best.key_at(k), *best.value_at(k)));
            k = k + 1;
            proof {
                assert(tracking@ =~= best.entry_seq().take(k as int));
            }
        }
        proof {
            best.lemma_entries();
            assert(tracking@ =~= best.entry_seq());
            self.first_event_for_sequence.lemma_entries();
            assert forall|i: int| #![trigger tracking@[i]] 0 <= i < tracking@.len() implies exists|kk: (NodeId, u64)|
                #[trigger] self@.first_seen.contains_key(kk) && kk.0 == tracking@[i].0 && kk.1 == tracking@[i].1 by {
                let n = tracking@[i].0;
                assert(tracking@[i] == best.entry_seq()[i]);
                assert(best@.contains_key(best.entry_seq()[i].0));
                assert(best@[n] == tracking@[i].1);
                let q = choose|q: int| 0 <= q < nf && #[trigger] fse[q].0 == (n, best@[n]);
                assert(self@.first_seen.contains_key(fse[q].0));
            }
            assert forall|i: int, kk: (NodeId, u64)| 0 <= i < tracking@.len() && #[trigger] self@.first_seen.contains_key(kk)
                && kk.0 == #[trigger] tracking@[i].0 implies kk.1 <= tracking@[i].1 by {
                let q = choose|q: int| 0 <= q < fse.len() && #[trigger] fse[q].0 == kk;
                assert(best@.contains_key(fse[q].0.0));
                assert(tracking@[i] == best.entry_seq()[i]);
                assert(best@.contains_key(best.entry_seq()[i].0));
                assert(best@[tracking@[i].0] == tracking@[i].1);
            }
            assert forall|kk: (NodeId, u64)| #[trigger] self@.first_seen.contains_key(kk) implies exists|i: int|
                0 <= i < tracking@.len() && tracking@[i].0 == kk.0 by {
                let q = choose|q: int| 0 <= q < fse.len() && #[trigger] fse[q].0 == kk;
                assert(best@.contains_key(kk.0));
                let i = choose|i: int| 0 <= i < best.entry_seq().len() && #[trigger] best.entry_seq()[i].0 == kk.0;
                assert(tracking@[i].0 == kk.0);
            }
        }
        let r = PersistedConsensusState {
            current_round: cur,
            round_seed: self.config.round_seed,
            committed_events: self.committed_count,
            last_finalized_round: last_finalized,
            active_validators: validators,
            equivocation_tracking: tracking,
            first_event_for_sequence: pairs,
            version: 2,
        };
        proof {
            assert(r.equivocation_tracking@ == tracking@);
            assert forall|i: int| 0 <= i < r.equivocation_tracking@.len() implies #[trigger] self@.first_seen.contains_key(r.equivocation_tracking@[i]) by {
                assert(tracking@[i] == r.equivocation_tracking@[i]);
                let kk = choose|kk: (NodeId, u64)| #[trigger] self@.first_seen.contains_key(kk) && kk.0 == tracking@[i].0 && kk.1 == tracking@[i].1;
                assert(kk == tracking@[i]);
            }
            assert forall|i: int, k: (NodeId, u64)| 0 <= i < r.equivocation_tracking@.len() && #[trigger] self@.first_seen.contains_key(k)
                && k.0 == #[trigger] r.equivocation_tracking@[i].0 implies k.1 <= r.equivocation_tracking@[i].1 by {
                assert(tracking@[i] == r.equivocation_tracking@[i]);
            }
        }
        r
    }
}

/// A duplicate-free listing of a map's entries builds that map.
pub proof fn lemma_pairs_map_entries(s: Seq<((NodeId, u64), EventId)>, m: Map<(NodeId, u64), EventId>)
    requires
        forall|i: int, j: int| 0 <= i < s.len() && 0 <= j < s.len() && i != j ==> #[trigger] s[i].0 != #[trigger] s[j].0,
        forall|i: int| 0 <= i < s.len() ==> #[trigger] m.contains_key(s[i].0) && m[s[i].0] == s[i].1,
        forall|k: (NodeId, u64)| #[trigger] m.contains_key(k) ==> exists|i: int| 0 <= i < s.len() && #[trigger] s[i].0 == k,
    ensures
        pairs_map(s) == m,
    decreases s.len(),
{
    if s.len() == 0 {
        assert forall|k: (NodeId, u64)| !m.contains_key(k) by {
            if m.contains_key(k) {
                let i = choose|i: int| 0 <= i < s.len() && #[trigger] s[i].0 == k;
            }
        }
        assert(m =~= Map::<(NodeId, u64), EventId>::empty());
    } else {
        let last = s.last();
        let sub = m.remove(last.0);
        let t = s.drop_last();
        assert forall|k: (NodeId, u64)| #[trigger] sub.contains_key(k) implies exists|i: int| 0 <= i < t.len() && #[trigger] t[i].0 == k by {
            let i = choose|i: int| 0 <= i < s.len() && #[trigger] s[i].0 == k;
            assert(i != s.len() - 1);
            assert(t[i].0 == k);
        }
        assert forall|i: int| 0 <= i < t.len() implies #[trigger] sub.contains_key(t[i].0) && sub[t[i].0] == t[i].1 by {
            assert(s[i] == t[i]);
            assert(s[i].0 != s[s.len() - 1].0);
            assert(m.contains_key(s[i].0));
        }
        assert forall|i: int, j: int| 0 <= i < t.len() && 0 <= j < t.len() && i != j implies #[trigger] t[i].0 != #[trigger] t[j].0 by {
            assert(s[i] == t[i]);
            assert(s[j] == t[j]);
        }
        lemma_pairs_map_entries(t, sub);
        assert(m =~= sub.insert(last.0, last.1));
    }
}


/// The decimal digit character for `d < 10`.
pub open spec fn digit_char(d: int) -> char {
    (d + 48) as char
}

/// The decimal representation of `n`.
pub open spec fn decimal(n: nat) -> Seq<char>
    decreases n,
{
    if n < 10 {
        seq![digit_char(n as int)]
    } else {
        decimal(n / 10).push(digit_char((n % 10) as int))
    }
}

/// The text of one decimal digit.
fn digit_str(d: u64) -> (r: &'static str)
    requires
        d < 10,
    ensures
        r@ == seq![digit_char(d as int)],
{
    proof {
        reveal_strlit("0");
        reveal_strlit("1");
        reveal_strlit("2");
        reveal_strlit("3");
        reveal_strlit("4");
        reveal_strlit("5");
        reveal_strlit("6");
        reveal_strlit("7");
        reveal_strlit("8");
        reveal_strlit("9");
    }
    if d == 0 {
        "0"
    } else if d == 1 {
        "1"
    } else if d == 2 {
        "2"
    } else if d == 3 {
        "3"
    } else if d == 4 {
        "4"
    } else if d == 5 {
        "5"
    } else if d == 6 {
        "6"
    } else if d == 7 {
        "7"
    } else if d == 8 {
        "8"
    } else {
        "9"
    }
}

/// The decimal text of `n`.
pub fn decimal_string(n: u64) -> (r: String)
    ensures
        r@ == decimal(n as nat),
    decreases n,
{
    if n < 10 {
        String::from_str(digit_str(n))
    } else {
        let mut s = decimal_string(n / 10);
        s.append(digit_str(n % 10));
        s
    }
}

/// The name of a consensus state, as its debug form reads.
pub open spec fn state_name(s: ConsensusState) -> Seq<char> {
    match s {
        ConsensusState::Pending => "Pending"@,
        ConsensusState::Acknowledged => "Acknowledged"@,
        ConsensusState::Witness { round } => "Witness { round: "@ + decimal(round as nat) + " }"@,
        ConsensusState::Famous => "Famous"@,
        ConsensusState::Committed => "Committed"@,
        ConsensusState::Rejected => "Rejected"@,
    }
}

/// The name of a consensus state.
pub fn state_name_string(s: ConsensusState) -> (r: String)
    ensures
        r@ == state_name(s),
{
    match s {
        ConsensusState::Pending => String::from_str("Pending"),
        ConsensusState::Acknowledged => String::from_str("Acknowledged"),
        ConsensusState::Witness { round } => {
            let mut r = String::from_str("Witness { round: ");
            let d = decimal_string(round);
            r.append(d.as_str());
            r.append(" }");
            r
        },
        ConsensusState::Famous => String::from_str("Famous"),
        ConsensusState::Committed => String::from_str("Committed"),
        ConsensusState::Rejected => String::from_str("Rejected"),
    }
}

/// The events of `ids` in state `s`.
pub open spec fn in_state(ids: Set<EventId>, m: ConsensusModel, s: ConsensusState) -> Set<EventId> {
    ids.filter(|id: EventId| m.states[id] == s)
}

/// How many processed events are in state `s`.
pub open spec fn state_count(m: ConsensusModel, s: ConsensusState) -> nat {
    in_state(m.states.dom(), m, s).len()
}

impl<S: SlashingBackend> ConsensusEngine<S> {
    /// Statistics: events tracked and committed, the highest round, the
    /// number of events per state (by name, each state present once), the
    /// node count and the supermajority threshold.
    #[verifier::spinoff_prover]
    pub fn stats(&self) -> (r: ConsensusStats)
        requires
            self.wf(),
        ensures
            r.total_tracked == self@.states.len(),
            r.committed == self@.committed_count,
            is_max_round(self@, r.current_max_round),
            r.total_nodes == self@.config.total_nodes,
            r.threshold == supermajority_spec(self@.config.total_nodes),
            exists|sts: Seq<ConsensusState>| #[trigger] sts.len() == r.by_state@.len() && sts.no_duplicates() && (forall|i: int|
                0 <= i < sts.len() ==> (#[trigger] r.by_state@[i]).0@ == state_name(sts[i]) && r.by_state@[i].1 == state_count(self@, sts[i])
                    && r.by_state@[i].1 > 0) && (forall|id: EventId| #[trigger] self@.states.contains_key(id) ==> sts.contains(self@.states[id])),
    {
        let ghost m = self@;
        proof {
            self.event_states.lemma_entries();
        }
        let n = self.event_states.len();
        let mut groups: Vec<(ConsensusState, usize)> = Vec::new();
        let ghost mut seen: Set<EventId> = Set::empty();
        let mut i: usize = 0;
        while i < n
            invariant
                self.wf(),
                self@ == m,
                n == self.event_states.entry_seq().len(),
                i <= n,
                seen == self.event_states.entry_seq().take(i as int).map_values(|e: (EventId, ConsensusState)| e.0).to_set(),
                seen.finite(),
                seen.len() == i,
                groups@.map_values(|g: (ConsensusState, usize)| g.0).no_duplicates(),
                forall|q: int| 0 <= q < groups@.len() ==> (#[trigger] groups@[q]).1 == in_state(seen, m, groups@[q].0).len()
                    && groups@[q].1 > 0,
                forall|id: EventId| #[trigger] seen.contains(id) ==> exists|q: int| 0 <= q < groups@.len() && groups@[q].0 == m.states[id],
                forall|id: EventId| #[trigger] seen.contains(id) ==> m.states.contains_key(id),
            decreases n - i,
        {
            proof {
                self.event_states.lemma_entries();
            }
            let id = *self.event_states.key_at(i);
            let st = *self.event_states.value_at(i);
            let ghost es = self.event_states.entry_seq();
            let ghost keys_i = es.take(i as int).map_values(|e: (EventId, ConsensusState)| e.0);
            proof {
                assert(self.event_states@.contains_key(id));
                assert(m.states[id] == st);
                assert(!seen.contains(id)) by {
                    if seen.contains(id) {
                        let q = choose|q: int| 0 <= q < keys_i.len() && keys_i[q] == id;
                        assert(es[q].0 == id);
                        assert(es[q].0 != es[i as int].0);
                    }
                }
                assert(es.take(i + 1).map_values(|e: (EventId, ConsensusState)| e.0) =~= keys_i.push(id));
                keys_i.lemma_push_to_set_commute(id);
            }
            let ghost seen0 = seen;
            let ghost g0 = groups@;
            let mut found: usize = groups.len();
            let mut k: usize = 0;
            while k < groups.len()
                invariant
                    k <= groups@.len(),
                    found == groups@.len() || (found < k && groups@[found as int].0 == st),
                    found == groups@.len() ==> forall|q: int| 0 <= q < k ==> groups@[q].0 != st,
                decreases groups@.len() - k,
            {
                if found == groups.len() && groups[k].0 == st {
                    found = k;
                }
                k = k + 1;
            }
            proof {
                seen = seen.insert(id);
            }
            if found < groups.len() {
                let c = groups[found].1;
                proof {
                    assert(in_state(seen, m, st) =~= in_state(seen0, m, st).insert(id));
                    assert(!in_state(seen0, m, st).contains(id));
                    assert(groups@[found as int].0 == st);
                    assert(c == in_state(seen0, m, st).len());
                    vstd::set_lib::lemma_len_subset(in_state(seen0, m, st), seen0);
                }
                groups.set(found, (st, c + 1));
            } else {
                proof {
                    assert(in_state(seen0, m, st) =~= Set::<EventId>::empty()) by {
                        assert forall|x: EventId| !in_state(seen0, m, st).contains(x) by {
                            if seen0.contains(x) && m.states[x] == st {
                                let q = choose|q: int| 0 <= q < g0.len() && g0[q].0 == m.states[x];
                            }
                        }
                    }
                    assert(in_state(seen, m, st) =~= set![id]);
                }
                groups.push((st, 1));
            }
            proof {
                assert forall|q: int| 0 <= q < groups@.len() implies (#[trigger] groups@[q]).1 == in_state(seen, m, groups@[q].0).len()
                    && groups@[q].1 > 0 by {
                    let g = groups@[q].0;
                    if g != st {
                        assert(q < g0.len());
                        assert(groups@[q] == g0[q]);
                        assert(in_state(seen, m, g) =~= in_state(seen0, m, g));
                    } else if found < g0.len() {
                        if q != found {
                            assert(groups@[q] == g0[q]);
                            let gk0 = g0.map_values(|gg: (ConsensusState, usize)| gg.0);
                            assert(gk0[q] == gk0[found as int]);
                        }
                    } else {
                        if q < g0.len() {
                            assert(groups@[q] == g0[q]);
                        }
                    }
                }
                let gk = groups@.map_values(|g: (ConsensusState, usize)| g.0);
                let gk0 = g0.map_values(|g: (ConsensusState, usize)| g.0);
                assert forall|a: int, b: int| 0 <= a < gk.len() && 0 <= b < gk.len() && a != b implies gk[a] != gk[b] by {
                    if a < g0.len() && b < g0.len() {
                        assert(gk[a] == gk0[a]);
                        assert(gk[b] == gk0[b]);
                    } else if a < g0.len() {
                        assert(gk[a] == g0[a].0);
                    } else {
                        assert(gk[b] == g0[b].0);
                    }
                }
                assert forall|x: EventId| #[trigger] seen.contains(x) implies exists|q: int| 0 <= q < groups@.len() && groups@[q].0 == m.states[x] by {
                    if x == id {
                        if found < g0.len() {
                            assert(groups@[found as int].0 == st);
                        } else {
                            assert(groups@[g0.len() as int].0 == st);
                        }
                    } else {
                        let q = choose|q: int| 0 <= q < g0.len() && g0[q].0 == m.states[x];
                        assert(groups@[q].0 == g0[q].0);
                    }
                }
            }
            i = i + 1;
        }
        proof {
            self.event_states.lemma_entries();
            let ks = self.event_states.entry_seq().take(n as int).map_values(|e: (EventId, ConsensusState)| e.0);
            assert forall|x: EventId| seen.contains(x) <==> m.states.contains_key(x) by {
                if m.states.contains_key(x) {
                    let j = choose|j: int| 0 <= j < self.event_states.entry_seq().len() && #[trigger] self.event_states.entry_seq()[j].0 == x;
                    assert(ks[j] == x);
                }
            }
            assert(seen =~= m.states.dom());
        }
        let ng = groups.len();
        let mut by_state: Vec<(String, usize)> = Vec::new();
        let mut k: usize = 0;
        while k < ng
            invariant
                ng == groups@.len(),
                k <= ng,
                by_state@.len() == k,
                forall|q: int| 0 <= q < k ==> (#[trigger] by_state@[q]).0@ == state_name(groups@[q].0) && by_state@[q].1 == groups@[q].1,
            decreases ng - k,
        {
            let (st, c) = groups[k];
            let name = state_name_string(st);
            by_state.push((name, c));
            k = k + 1;
        }
        let cur = self.current_round();
        let total = self.event_states.len();
        let t = supermajority(self.config.total_nodes);
        let r = ConsensusStats {
            total_tracked: total,
            committed: self.committed_count,
            current_max_round: cur,
            by_state,
            total_nodes: self.config.total_nodes,
            threshold: t,
        };
        proof {
            self.event_states.lemma_entries();
            let sts = groups@.map_values(|g: (ConsensusState, usize)| g.0);
            assert forall|q: int| 0 <= q < sts.len() implies (#[trigger] r.by_state@[q]).0@ == state_name(sts[q]) && r.by_state@[q].1 == state_count(self@, sts[q])
                && r.by_state@[q].1 > 0 by {
                assert(groups@[q].1 == in_state(seen, m, groups@[q].0).len());
            }
            assert forall|id: EventId| #[trigger] self@.states.contains_key(id) implies sts.contains(self@.states[id]) by {
                assert(seen.contains(id));
                let q = choose|q: int| 0 <= q < groups@.len() && groups@[q].0 == m.states[id];
                assert(sts[q] == m.states[id]);
            }
            assert(sts.len() == r.by_state@.len());
        }
        r
    }
}

} // verus!

verus! {

/// The model of a fresh engine with configuration `config`.
pub open spec fn fresh_model(config: ConsensusConfig) -> ConsensusModel {
    ConsensusModel {
        config,
        states: Map::empty(),
        rounds: Map::empty(),
        witnesses: Map::empty(),
        fame: Map::empty(),
        nodes: Map::empty(),
        committed_count: 0,
        first_seen: Map::empty(),
    }
}

/// Whether a snapshot's format version is supported.
pub open spec fn supported_version(v: u32) -> bool {
    1 <= v <= 2
}

impl<S: SlashingBackend> ConsensusEngine<S> {
    /// An engine resumed from what a store's `load_state` returned: a
    /// snapshot is restored into a fresh engine (`Config` error for an
    /// unsupported version); no snapshot, or a failed load, gives a fresh
    /// engine.
    pub fn from_loaded(
        config: ConsensusConfig,
        slashing: S,
        loaded: Result<Option<PersistedConsensusState>, ConsensusStoreError>,
    ) -> (r: Result<ConsensusEngine<S>, ConsensusError>)
        requires
            slashing.backend_wf(),
        ensures
            r matches Ok(e) ==> e.wf() && e.backend() == slashing,
            loaded matches Ok(Some(st)) ==> (!supported_version(st.version) ==> (r matches Err(e) && e is Config)),
            loaded matches Ok(Some(st)) ==> (supported_version(st.version) ==> (r matches Ok(e) && e@ == restored(
                fresh_model(config),
                st,
            ))),
            !(loaded matches Ok(Some(_))) ==> (r matches Ok(e) && e@ == fresh_model(config)),
    {
        let mut engine = ConsensusEngine::new(config, slashing);
        match loaded {
            Ok(Some(state)) => {
                match engine.restore_state(state) {
                    Ok(()) => Ok(engine),
                    Err(e) => Err(e),
                }
            },
            _ => Ok(engine),
        }
    }

    /// An engine resumed from the snapshot in `store`, as `from_loaded`
    /// does with whatever the store's `load_state` returns.
    pub fn load_or_new<St: ConsensusStore>(config: ConsensusConfig, store: &St, slashing: S) -> (r: Result<
        ConsensusEngine<S>,
        ConsensusError,
    >)
        requires
            slashing.backend_wf(),
        ensures
            r matches Ok(e) ==> e.wf() && e.backend() == slashing && (e@ == fresh_model(config) || exists|
                st: PersistedConsensusState,
            | supported_version(st.version) && e@ == #[trigger] restored(fresh_model(config), st)),
            r matches Err(e) ==> e is Config,
    {
        let loaded = store.load_state();
        ConsensusEngine::from_loaded(config, slashing, loaded)
    }

    /// Save a snapshot of the engine (`snapshot_state`), then the current
    /// round, to `store`; the first failure is returned.
    pub fn persist_state<St: ConsensusStore>(&self, store: &mut St) -> (r: Result<(), ConsensusStoreError>)
        requires
            self.wf(),
    {
        let state = self.snapshot_state();
        let round = state.current_round;
        match store.save_state(&state) {
            Ok(()) => {},
            Err(e) => {
                return Err(e);
            },
        }
        store.save_round(round)
    }
}

} // verus!

verus! {

/// The committed events of a model.
pub open spec fn committed_ids(m: ConsensusModel) -> Set<EventId> {
    m.states.dom().filter(|x: EventId| m.states[x] == ConsensusState::Committed)
}

/// The committed count equals the number of events in state `Committed`,
/// held at `u64::MAX` when there are more.
pub open spec fn count_exact(m: ConsensusModel) -> bool {
    &&& m.states.dom().finite()
    &&& m.committed_count as int == if committed_ids(m).len() > u64::MAX {
        u64::MAX as int
    } else {
        committed_ids(m).len() as int
    }
}

/// A fresh engine counts no committed events and has none.
pub proof fn lemma_fresh_count_exact(config: ConsensusConfig)
    ensures
        count_exact(fresh_model(config)),
{
    assert(fresh_model(config).states.dom() =~= Set::<EventId>::empty());
    assert(committed_ids(fresh_model(config)) =~= Set::<EventId>::empty());
}

/// Committed count law: where the count is exact, it is no more than the
/// number of tracked events, and it is the length of any listing of the
/// committed events without repeats.
pub proof fn lemma_count_exact_listing(m: ConsensusModel, listing: Seq<EventId>)
    requires
        count_exact(m),
        listing.no_duplicates(),
        forall|id: EventId| #[trigger] listing.contains(id) <==> committed_in(m, id),
    ensures
        m.committed_count <= m.states.dom().len(),
        listing.len() <= u64::MAX ==> m.committed_count == listing.len(),
{
    vstd::set_lib::lemma_len_subset(committed_ids(m), m.states.dom());
    assert(listing.to_set() =~= committed_ids(m));
    listing.unique_seq_to_set();
}

/// Recording a not yet tracked event in a state other than `Committed`
/// keeps the count exact.
pub proof fn lemma_insert_uncommitted(m: ConsensusModel, id: EventId, st: ConsensusState)
    requires
        count_exact(m),
        !m.states.contains_key(id),
        st != ConsensusState::Committed,
    ensures
        count_exact(ConsensusModel { states: m.states.insert(id, st), ..m }),
{
    let m2 = ConsensusModel { states: m.states.insert(id, st), ..m };
    assert(committed_ids(m2) =~= committed_ids(m));
}

/// Acknowledging a pending event keeps the count exact.
pub proof fn lemma_acknowledge_keeps_count(m: ConsensusModel, id: EventId)
    requires
        count_exact(m),
        m.states.contains_key(id),
        m.states[id] == ConsensusState::Pending,
    ensures
        count_exact(ConsensusModel { states: m.states.insert(id, ConsensusState::Acknowledged), ..m }),
{
    let m2 = ConsensusModel { states: m.states.insert(id, ConsensusState::Acknowledged), ..m };
    assert(m2.states.dom() =~= m.states.dom());
    assert(committed_ids(m2) =~= committed_ids(m));
}

/// The steps before the commit step keep the count exact.
pub proof fn lemma_stages_keep_count(m: ConsensusModel, e: EventView, rd: u64)
    requires
        count_exact(m),
        !m.states.contains_key(e.id),
    ensures
        count_exact(pre_round(m, e)),
        count_exact(stage_witness(pre_round(m, e), e, rd)),
        count_exact(stage_optimistic(stage_witness(pre_round(m, e), e, rd), e)),
{
    let m1 = pre_round(m, e);
    assert(m1.states == m.states && m1.committed_count == m.committed_count);
    let mw = stage_witness(m1, e, rd);
    if rd >= info_of(m1, e.creator).last_witness_round {
        lemma_insert_uncommitted(m1, e.id, ConsensusState::Witness { round: rd });
    } else {
        lemma_insert_uncommitted(m1, e.id, ConsensusState::Pending);
    }
    let mo = stage_optimistic(mw, e);
    assert(mo.states.dom() =~= mw.states.dom());
    assert(committed_ids(mo) =~= committed_ids(mw));
}

/// Marking a finite set of uncommitted events committed keeps the count
/// exact.
pub proof fn lemma_commit_keeps_count(m: ConsensusModel, c: Set<EventId>, fame: Map<EventId, bool>)
    requires
        count_exact(m),
        c.finite(),
        forall|x: EventId| #[trigger] c.contains(x) ==> !committed_in(m, x),
    ensures
        count_exact(stage_committed(m, c, fame)),
{
    let m2 = stage_committed(m, c, fame);
    assert(m2.states.dom() =~= m.states.dom() + c);
    assert(committed_ids(m2) =~= committed_ids(m) + c);
    assert(committed_ids(m).disjoint(c));
    vstd::set_lib::lemma_set_disjoint_lens(committed_ids(m), c);
}

/// What the commit step commits was not committed before.
pub proof fn lemma_commit_outcome_uncommitted(
    m2: ConsensusModel,
    g: GraphModel,
    id: EventId,
    rd: u64,
    c: Set<EventId>,
    fame: Map<EventId, bool>,
)
    requires
        commit_outcome(m2, g, id, rd, c, fame),
        c.finite(),
    ensures
        forall|x: EventId| #[trigger] c.contains(x) ==> !committed_in(m2, x),
{
    if !is_witness_state(m2, id) {
        assert forall|x: EventId| #[trigger] c.contains(x) implies !committed_in(m2, x) by {
            vstd::set_lib::lemma_set_empty_equivalency_len(c);
        }
    } else if rd < m2.config.commit_delay_rounds {
    } else {
        let f = famous_uncommitted(m2, g, (rd - m2.config.commit_delay_rounds) as u64);
        assert forall|x: EventId| #[trigger] c.contains(x) implies !committed_in(m2, x) by {
            if f.contains(x) {
            }
        }
    }
}

} // verus!
