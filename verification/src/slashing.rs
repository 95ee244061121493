//! Slashing: penalizing validators for Byzantine behavior.
//!
//! Slash points accumulate per offense (equivocation 500, liveness violation
//! 100, invalid attestation 300). A node whose points reach the slash
//! threshold (default 500) is slashed; at the ejection threshold (default
//! 2000) it is ejected. A graded model escalates penalties (warning, jail,
//! ejection) with the number of prior offenses of the same type, and
//! governance can undo the most recent offense of a validator.
use vstd::prelude::*;
use vstd::string::StringExecFns;
use crate::ids::NodeId;
use crate::vec_map::VecMap;
use crate::vec_map::Duplicate;
use crate::vec_map::duplicate_vec;
use crate::vector_clock::count_at;
use crate::event::Event;

verus! {

/// Default slash threshold: accumulated points at which a node is slashed.
pub const DEFAULT_SLASH_THRESHOLD: u64 = 500;

/// Default ejection threshold: accumulated points at which a node is ejected.
pub const DEFAULT_EJECTION_THRESHOLD: u64 = 2000;

/// Points assigned for an equivocation offense.
pub const EQUIVOCATION_POINTS: u64 = 500;

/// Points assigned for a liveness violation.
pub const LIVENESS_VIOLATION_POINTS: u64 = 100;

/// Points assigned for an invalid attestation.
pub const INVALID_ATTESTATION_POINTS: u64 = 300;

/// Basis points in one hundred percent.
pub const BASIS_POINTS_DENOMINATOR: u64 = 10_000;

/// The type of Byzantine offense committed by a validator.
#[derive(Debug, Clone, Copy, PartialEq, Eq, Structural)]
pub enum SlashOffense {
    /// Two different events with the same creator and sequence number.
    Equivocation,
    /// Offline or unresponsive for too many rounds.
    LivenessViolation,
    /// Attested to invalid or fraudulent data.
    InvalidAttestation,
}

/// The points of an offense type.
pub open spec fn offense_points(o: SlashOffense) -> u64 {
    match o {
        SlashOffense::Equivocation => EQUIVOCATION_POINTS,
        SlashOffense::LivenessViolation => LIVENESS_VIOLATION_POINTS,
        SlashOffense::InvalidAttestation => INVALID_ATTESTATION_POINTS,
    }
}

impl SlashOffense {
    /// The number of slash points assigned to this offense type.
    pub fn points(&self) -> (r: u64)
        ensures
            r == offense_points(*self),
    {
        match self {
            SlashOffense::Equivocation => EQUIVOCATION_POINTS,
            SlashOffense::LivenessViolation => LIVENESS_VIOLATION_POINTS,
            SlashOffense::InvalidAttestation => INVALID_ATTESTATION_POINTS,
        }
    }
}

/// The outcome of recording an offense.
#[derive(Debug, Clone, Copy, PartialEq, Eq)]
pub enum SlashOutcome {
    /// Points below the slash threshold.
    Warned {
        /// The offending node.
        node: NodeId,
        /// Total points after the offense (or, in the graded model, the burn amount).
        points: u64,
    },
    /// Points at or above the slash threshold: stake is slashed.
    Slashed {
        /// The offending node.
        node: NodeId,
        /// Amount of stake slashed.
        amount: u64,
    },
    /// Points at or above the ejection threshold.
    Ejected {
        /// The ejected node.
        node: NodeId,
    },
}

/// Graded penalty. Burn shares are in basis points (10 000 = 100%).
#[derive(Debug, Clone, Copy, PartialEq, Eq, Structural)]
pub enum SlashPenalty {
    /// Warning with a small stake burn.
    Warning {
        /// Share of stake burned, in basis points.
        burn_bps: u64,
    },
    /// Partial burn and a jail period.
    Jailed {
        /// Share of stake burned, in basis points.
        burn_bps: u64,
        /// Number of rounds jailed.
        jail_rounds: u64,
        /// Whether the jail expires on its own.
        auto_release: bool,
    },
    /// Full burn and ejection.
    Ejected {
        /// Share of stake burned, in basis points.
        burn_bps: u64,
        /// Why the validator is ejected.
        reason: EjectionReason,
    },
}

/// Why a validator is ejected under the graded model.
#[derive(Debug, Clone, Copy, PartialEq, Eq, Structural)]
pub enum EjectionReason {
    /// A third (or later) equivocation.
    RepeatEquivocation,
    /// A third (or later) invalid attestation.
    RepeatInvalidAttestation,
}

impl EjectionReason {
    /// The reason as text.
    pub fn as_str(&self) -> (r: &'static str)
        ensures
            r@ == (match *self {
                EjectionReason::RepeatEquivocation => "repeat_equivocation"@,
                EjectionReason::RepeatInvalidAttestation => "repeat_invalid_attestation"@,
            }),
    {
        match self {
            EjectionReason::RepeatEquivocation => "repeat_equivocation",
            EjectionReason::RepeatInvalidAttestation => "repeat_invalid_attestation",
        }
    }
}

/// Kind of slashing event for external monitoring.
#[derive(Debug, Clone, Copy, PartialEq, Eq, Structural)]
pub enum SlashingEventType {
    /// A new offense was recorded.
    OffenseRecorded,
    /// A penalty was applied.
    PenaltyApplied,
    /// A validator entered jail.
    JailEntered,
    /// A validator was released from jail.
    JailReleased,
    /// A validator was ejected.
    ValidatorEjected,
    /// A slash was undone by governance.
    UndoApplied,
}

/// A slashing event for external monitoring and audit.
#[derive(Debug, Clone, Copy)]
pub struct SlashingEvent {
    /// The type of event.
    pub event_type: SlashingEventType,
    /// The validator involved.
    pub validator_id: NodeId,
    /// The round of the event.
    pub round: u64,
    /// The offense involved, if any.
    pub offense: Option<SlashOffense>,
    /// The penalty applied, if any.
    pub penalty: Option<SlashPenalty>,
    /// Timestamp of the event.
    pub timestamp: u64,
}

/// Errors of the slashing state and its persistence.
#[derive(Debug)]
pub enum SlashingStoreError {
    /// Reading or writing the persistence backend failed.
    Persistence(String),
    /// Serializing or deserializing the state failed.
    Serialization(String),
    /// The validator has no offense history to undo (first four id bytes).
    UndoNoOffenseHistory([u8; 4]),
}

/// The message of a slashing store error.
pub open spec fn slashing_store_error_text(e: SlashingStoreError) -> Seq<char> {
    match e {
        SlashingStoreError::Persistence(m) => "persistence error: "@ + m@,
        SlashingStoreError::Serialization(m) => "serialization error: "@ + m@,
        SlashingStoreError::UndoNoOffenseHistory(_) => "validator has no offense history to undo"@,
    }
}

impl SlashingStoreError {
    /// The error's message.
    pub fn message(&self) -> (r: String)
        ensures
            r@ == slashing_store_error_text(*self),
    {
        match self {
            SlashingStoreError::Persistence(m) => {
                let mut s = String::from_str("persistence error: ");
                s.append(m.as_str());
                s
            },
            SlashingStoreError::Serialization(m) => {
                let mut s = String::from_str("serialization error: ");
                s.append(m.as_str());
                s
            },
            SlashingStoreError::UndoNoOffenseHistory(_) => {
                String::from_str("validator has no offense history to undo")
            },
        }
    }
}

/// Jail state of a temporarily suspended validator.
pub struct JailState {
    /// The jailed validator.
    pub validator_id: NodeId,
    /// The round at which the validator was jailed.
    pub jailed_at_round: u64,
    /// The round at which the validator is released.
    pub release_round: u64,
    /// The offense history that led to jailing.
    pub offense_history: Vec<SlashOffense>,
    /// Amount of stake locked during jail.
    pub stake_locked: u64,
    /// Whether the jail expires on its own.
    pub auto_release: bool,
}

/// The content of a jail entry.
pub struct JailView {
    pub validator_id: NodeId,
    pub jailed_at_round: u64,
    pub release_round: u64,
    pub offense_history: Seq<SlashOffense>,
    pub stake_locked: u64,
    pub auto_release: bool,
}

impl View for JailState {
    type V = JailView;

    open spec fn view(&self) -> JailView {
        JailView {
            validator_id: self.validator_id,
            jailed_at_round: self.jailed_at_round,
            release_round: self.release_round,
            offense_history: self.offense_history@,
            stake_locked: self.stake_locked,
            auto_release: self.auto_release,
        }
    }
}

/// Copy a list of offenses.
pub fn copy_offenses(v: &Vec<SlashOffense>) -> (r: Vec<SlashOffense>)
    ensures
        r@ == v@,
{
    let mut r: Vec<SlashOffense> = Vec::new();
    let mut i: usize = 0;
    while i < v.len()
        invariant
            i <= v@.len(),
            r@ == v@.subrange(0, i as int),
        decreases v@.len() - i,
    {
        r.push(v[i]);
        i = i + 1;
        proof {
            assert(r@ =~= v@.subrange(0, i as int));
        }
    }
    proof {
        assert(r@ =~= v@);
    }
    r
}

/// Copy a list of numbers.
pub fn copy_u64s(v: &Vec<u64>) -> (r: Vec<u64>)
    ensures
        r@ == v@,
{
    let mut r: Vec<u64> = Vec::new();
    let mut i: usize = 0;
    while i < v.len()
        invariant
            i <= v@.len(),
            r@ == v@.subrange(0, i as int),
        decreases v@.len() - i,
    {
        r.push(v[i]);
        i = i + 1;
        proof {
            assert(r@ =~= v@.subrange(0, i as int));
        }
    }
    proof {
        assert(r@ =~= v@);
    }
    r
}

impl Duplicate for Vec<SlashOffense> {
    fn duplicate(&self) -> (r: Self) {
        copy_offenses(self)
    }
}

impl Duplicate for JailState {
    fn duplicate(&self) -> (r: JailState) {
        JailState {
            validator_id: self.validator_id,
            jailed_at_round: self.jailed_at_round,
            release_round: self.release_round,
            offense_history: copy_offenses(&self.offense_history),
            stake_locked: self.stake_locked,
            auto_release: self.auto_release,
        }
    }
}

/// Audit record of an applied governance undo.
#[derive(Debug)]
pub struct SlashingUndoRecord {
    /// The validator whose slash was partially reversed.
    pub validator_id: NodeId,
    /// Hash of the authorizing governance proposal.
    pub proposal_hash: [u8; 32],
    /// Slash points before the undo.
    pub points_before: u64,
    /// Slash points after the undo.
    pub points_after: u64,
    /// Round in which the original slash was recorded.
    pub slashed_round: u64,
    /// Round at which the undo was requested.
    pub undo_round: u64,
    /// Wall-clock time of the undo (milliseconds since the UNIX epoch).
    pub timestamp: u64,
    /// Human-readable reason.
    pub reason: String,
}

/// The content of an undo record.
pub struct UndoRecordView {
    pub validator_id: NodeId,
    pub proposal_hash: [u8; 32],
    pub points_before: u64,
    pub points_after: u64,
    pub slashed_round: u64,
    pub undo_round: u64,
    pub timestamp: u64,
    pub reason: Seq<char>,
}

impl View for SlashingUndoRecord {
    type V = UndoRecordView;

    open spec fn view(&self) -> UndoRecordView {
        UndoRecordView {
            validator_id: self.validator_id,
            proposal_hash: self.proposal_hash,
            points_before: self.points_before,
            points_after: self.points_after,
            slashed_round: self.slashed_round,
            undo_round: self.undo_round,
            timestamp: self.timestamp,
            reason: self.reason@,
        }
    }
}

impl Duplicate for SlashingUndoRecord {
    fn duplicate(&self) -> (r: SlashingUndoRecord) {
        SlashingUndoRecord {
            validator_id: self.validator_id,
            proposal_hash: self.proposal_hash,
            points_before: self.points_before,
            points_after: self.points_after,
            slashed_round: self.slashed_round,
            undo_round: self.undo_round,
            timestamp: self.timestamp,
            reason: self.reason.clone(),
        }
    }
}

} // verus!

verus! {

/// The sequence stored for `n`, empty when there is none.
pub open spec fn seq_at<T>(m: Map<NodeId, Seq<T>>, n: NodeId) -> Seq<T> {
    if m.contains_key(n) {
        m[n]
    } else {
        Seq::empty()
    }
}

/// Saturating addition.
pub open spec fn sat_add(a: u64, b: u64) -> u64 {
    if a + b > u64::MAX {
        u64::MAX
    } else {
        (a + b) as u64
    }
}

/// Saturating subtraction.
pub open spec fn sat_sub(a: u64, b: u64) -> u64 {
    if a < b {
        0
    } else {
        (a - b) as u64
    }
}

/// The mathematical slashing state.
pub struct SlashingModel {
    /// Accumulated slash points per node.
    pub points: Map<NodeId, u64>,
    /// Staked amounts per node.
    pub stakes: Map<NodeId, u64>,
    /// Points at which a node is slashed.
    pub slash_threshold: u64,
    /// Points at which a node is ejected.
    pub ejection_threshold: u64,
    /// Points added by each recorded offense, oldest first, per node.
    pub history: Map<NodeId, Seq<u64>>,
    /// Offense types recorded, oldest first, per node.
    pub typed_history: Map<NodeId, Seq<SlashOffense>>,
    /// Currently jailed validators.
    pub jails: Map<NodeId, JailView>,
    /// Round of the last governance undo per node.
    pub last_undo: Map<NodeId, u64>,
    /// All governance undos applied, oldest first.
    pub undo_log: Seq<UndoRecordView>,
}

/// The state with the points of `node` set to `v`.
pub open spec fn with_points(m: SlashingModel, node: NodeId, v: u64) -> SlashingModel {
    SlashingModel { points: m.points.insert(node, v), ..m }
}

/// The outcome for a node whose points reached `total`.
pub open spec fn outcome_for(total: u64, node: NodeId, stake: u64, slash_t: u64, eject_t: u64) -> SlashOutcome {
    if total >= eject_t {
        SlashOutcome::Ejected { node }
    } else if total >= slash_t {
        SlashOutcome::Slashed { node, amount: stake }
    } else {
        SlashOutcome::Warned { node, points: total }
    }
}

/// The state after recording `offense` for `node`.
pub open spec fn after_offense(m: SlashingModel, node: NodeId, offense: SlashOffense) -> SlashingModel {
    SlashingModel {
        points: m.points.insert(node, sat_add(count_at(m.points, node), offense_points(offense))),
        history: m.history.insert(node, seq_at(m.history, node).push(offense_points(offense))),
        typed_history: m.typed_history.insert(node, seq_at(m.typed_history, node).push(offense)),
        ..m
    }
}

/// The sequence without its last element (unchanged when empty).
pub open spec fn drop_last_if_any<T>(s: Seq<T>) -> Seq<T> {
    if s.len() > 0 {
        s.drop_last()
    } else {
        s
    }
}

/// The state after undoing the most recent offense of `node` (which must have one).
pub open spec fn after_undo(m: SlashingModel, node: NodeId) -> SlashingModel {
    let h = seq_at(m.history, node);
    SlashingModel {
        points: m.points.insert(node, sat_sub(count_at(m.points, node), h.last())),
        history: m.history.insert(node, h.drop_last()),
        typed_history: if m.typed_history.contains_key(node) {
            m.typed_history.insert(node, drop_last_if_any(m.typed_history[node]))
        } else {
            m.typed_history
        },
        ..m
    }
}

/// Whether a node's points reach the slash threshold (a node without a
/// points entry is never slashed).
pub open spec fn model_slashed(m: SlashingModel, node: NodeId) -> bool {
    m.points.contains_key(node) && m.points[node] >= m.slash_threshold
}

/// Whether a node's points reach the ejection threshold.
pub open spec fn model_ejected(m: SlashingModel, node: NodeId) -> bool {
    m.points.contains_key(node) && m.points[node] >= m.ejection_threshold
}

/// Number of occurrences of `o` in `s`.
pub open spec fn count_offense(s: Seq<SlashOffense>, o: SlashOffense) -> nat
    decreases s.len(),
{
    if s.len() == 0 {
        0
    } else {
        count_offense(s.drop_last(), o) + if s.last() == o {
            1nat
        } else {
            0nat
        }
    }
}

/// The graded penalty for an offense given the number of prior offenses of
/// the same type.
pub open spec fn penalty_for(offense: SlashOffense, prior: nat) -> SlashPenalty {
    match offense {
        SlashOffense::Equivocation => if prior == 0 {
            SlashPenalty::Jailed { burn_bps: 500, jail_rounds: 1000, auto_release: true }
        } else if prior == 1 {
            SlashPenalty::Jailed { burn_bps: 2500, jail_rounds: 5000, auto_release: false }
        } else {
            SlashPenalty::Ejected { burn_bps: 10000, reason: EjectionReason::RepeatEquivocation }
        },
        SlashOffense::LivenessViolation => if prior < 2 {
            SlashPenalty::Warning { burn_bps: 100 }
        } else {
            SlashPenalty::Jailed { burn_bps: 500, jail_rounds: 500, auto_release: true }
        },
        SlashOffense::InvalidAttestation => if prior == 0 {
            SlashPenalty::Warning { burn_bps: 200 }
        } else if prior == 1 {
            SlashPenalty::Jailed { burn_bps: 1000, jail_rounds: 2000, auto_release: true }
        } else {
            SlashPenalty::Ejected {
                burn_bps: 10000,
                reason: EjectionReason::RepeatInvalidAttestation,
            }
        },
    }
}

/// The share of stake a penalty burns, in basis points.
pub open spec fn penalty_burn(p: SlashPenalty) -> u64 {
    match p {
        SlashPenalty::Warning { burn_bps } => burn_bps,
        SlashPenalty::Jailed { burn_bps, .. } => burn_bps,
        SlashPenalty::Ejected { burn_bps, .. } => burn_bps,
    }
}

/// Graded penalty law: the penalty table, for every count of prior
/// offenses of the same type.
/// Equivocation: 5% and 1000 rounds with release, then 25% and 5000 rounds
/// without release, then ejection with all stake burned. Liveness: a 1%
/// warning twice, then 5% and 500 rounds with release. Invalid attestation:
/// a 2% warning, then 10% and 2000 rounds with release, then ejection with
/// all stake burned.
pub proof fn lemma_graded_penalty_table(prior: nat)
    ensures
        prior == 0 ==> penalty_for(SlashOffense::Equivocation, prior) == (SlashPenalty::Jailed {
            burn_bps: 500,
            jail_rounds: 1000,
            auto_release: true,
        }),
        prior == 1 ==> penalty_for(SlashOffense::Equivocation, prior) == (SlashPenalty::Jailed {
            burn_bps: 2500,
            jail_rounds: 5000,
            auto_release: false,
        }),
        prior >= 2 ==> penalty_for(SlashOffense::Equivocation, prior) == (SlashPenalty::Ejected {
            burn_bps: 10000,
            reason: EjectionReason::RepeatEquivocation,
        }),
        prior < 2 ==> penalty_for(SlashOffense::LivenessViolation, prior) == (SlashPenalty::Warning { burn_bps: 100 }),
        prior >= 2 ==> penalty_for(SlashOffense::LivenessViolation, prior) == (SlashPenalty::Jailed {
            burn_bps: 500,
            jail_rounds: 500,
            auto_release: true,
        }),
        prior == 0 ==> penalty_for(SlashOffense::InvalidAttestation, prior) == (SlashPenalty::Warning { burn_bps: 200 }),
        prior == 1 ==> penalty_for(SlashOffense::InvalidAttestation, prior) == (SlashPenalty::Jailed {
            burn_bps: 1000,
            jail_rounds: 2000,
            auto_release: true,
        }),
        prior >= 2 ==> penalty_for(SlashOffense::InvalidAttestation, prior) == (SlashPenalty::Ejected {
            burn_bps: 10000,
            reason: EjectionReason::RepeatInvalidAttestation,
        }),
{
}

/// Escalation law: a repeated offense never burns a smaller share than an
/// earlier one of the same type, and a third one of a kind that ejects
/// burns all stake.
pub proof fn lemma_penalty_escalates(offense: SlashOffense, prior: nat, later: nat)
    requires
        prior <= later,
    ensures
        penalty_burn(penalty_for(offense, prior)) <= penalty_burn(penalty_for(offense, later)),
        later >= 2 && penalty_for(offense, later) is Ejected ==> penalty_burn(penalty_for(offense, later)) == 10000,
{
}

/// `stake * burn_bps / 10 000`, truncated to 64 bits.
pub open spec fn burn_amount(stake: u64, burn_bps: u64) -> u64 {
    ((stake as int * burn_bps as int) / 10000) as u64
}

/// Whether the jail entry (if any) still holds the validator at `round`:
/// entries without auto-release hold forever; others until the release round.
pub open spec fn model_jailed_at(m: SlashingModel, v: NodeId, round: u64) -> bool {
    m.jails.contains_key(v) && (!m.jails[v].auto_release || round < m.jails[v].release_round)
}

/// Persistable slashing state.
pub struct SlashingState {
    slash_points: VecMap<NodeId, u64>,
    stakes: VecMap<NodeId, u64>,
    slash_threshold: u64,
    ejection_threshold: u64,
    offense_history: VecMap<NodeId, Vec<u64>>,
    typed_offense_history: VecMap<NodeId, Vec<SlashOffense>>,
    jail_registry: VecMap<NodeId, JailState>,
    last_undo_rounds: VecMap<NodeId, u64>,
    undo_log: Vec<SlashingUndoRecord>,
}

impl View for SlashingState {
    type V = SlashingModel;

    closed spec fn view(&self) -> SlashingModel {
        SlashingModel {
            points: self.slash_points@,
            stakes: self.stakes@,
            slash_threshold: self.slash_threshold,
            ejection_threshold: self.ejection_threshold,
            history: self.offense_history@.map_values(|v: Vec<u64>| v@),
            typed_history: self.typed_offense_history@.map_values(|v: Vec<SlashOffense>| v@),
            jails: self.jail_registry@.map_values(|j: JailState| j@),
            last_undo: self.last_undo_rounds@,
            undo_log: self.undo_log@.map_values(|r: SlashingUndoRecord| r@),
        }
    }
}

/// An empty state with the given thresholds.
pub open spec fn empty_model(slash_threshold: u64, ejection_threshold: u64) -> SlashingModel {
    SlashingModel {
        points: Map::empty(),
        stakes: Map::empty(),
        slash_threshold,
        ejection_threshold,
        history: Map::empty(),
        typed_history: Map::empty(),
        jails: Map::empty(),
        last_undo: Map::empty(),
        undo_log: Seq::empty(),
    }
}

impl SlashingState {
    /// Internal consistency of the maps.
    pub closed spec fn wf(&self) -> bool {
        &&& self.slash_points.wf()
        &&& self.stakes.wf()
        &&& self.offense_history.wf()
        &&& self.typed_offense_history.wf()
        &&& self.jail_registry.wf()
        &&& self.last_undo_rounds.wf()
    }

    /// An empty state with the given thresholds.
    pub fn new(slash_threshold: u64, ejection_threshold: u64) -> (r: Self)
        ensures
            r.wf(),
            r@ == empty_model(slash_threshold, ejection_threshold),
    {
        let r = SlashingState {
            slash_points: VecMap::new(),
            stakes: VecMap::new(),
            slash_threshold,
            ejection_threshold,
            offense_history: VecMap::new(),
            typed_offense_history: VecMap::new(),
            jail_registry: VecMap::new(),
            last_undo_rounds: VecMap::new(),
            undo_log: Vec::new(),
        };
        proof {
            assert(r@.history =~= Map::<NodeId, Seq<u64>>::empty());
            assert(r@.typed_history =~= Map::<NodeId, Seq<SlashOffense>>::empty());
            assert(r@.jails =~= Map::<NodeId, JailView>::empty());
            assert(r@.undo_log =~= Seq::<UndoRecordView>::empty());
        }
        r
    }

    /// The default state: empty, thresholds 500 and 2000.
    pub fn default() -> (r: Self)
        ensures
            r.wf(),
            r@ == empty_model(DEFAULT_SLASH_THRESHOLD, DEFAULT_EJECTION_THRESHOLD),
    {
        SlashingState::new(DEFAULT_SLASH_THRESHOLD, DEFAULT_EJECTION_THRESHOLD)
    }

    /// A copy of this state.
    pub fn duplicate(&self) -> (r: Self)
        requires
            self.wf(),
        ensures
            r.wf(),
            r@ == self@,
    {
        let offense_history = self.offense_history.duplicate_values();
        let typed_offense_history = self.typed_offense_history.duplicate_values();
        let jail_registry = self.jail_registry.duplicate_values();
        let undo_log = duplicate_vec(&self.undo_log);
        let r = SlashingState {
            slash_points: self.slash_points.clone_copy(),
            stakes: self.stakes.clone_copy(),
            slash_threshold: self.slash_threshold,
            ejection_threshold: self.ejection_threshold,
            offense_history,
            typed_offense_history,
            jail_registry,
            last_undo_rounds: self.last_undo_rounds.clone_copy(),
            undo_log,
        };
        proof {
            assert(r@.history =~= self@.history);
            assert(r@.typed_history =~= self@.typed_history);
            assert(r@.jails =~= self@.jails);
            assert(r@.undo_log =~= self@.undo_log);
        }
        r
    }

    /// Points of `validator`, zero when none are recorded.
    pub fn slash_count(&self, validator: &NodeId) -> (r: u64)
        requires
            self.wf(),
        ensures
            r == count_at(self@.points, *validator),
    {
        match self.slash_points.get(validator) {
            Some(p) => *p,
            None => 0,
        }
    }

    /// Decrease the points of `validator` by `amount` (at most down to zero).
    /// Fails, leaving the state unchanged, when the validator has no points.
    pub fn decrement_slash_count_by(&mut self, validator: &NodeId, amount: u64) -> (r: Result<(), SlashingStoreError>)
        requires
            old(self).wf(),
        ensures
            final(self).wf(),
            count_at(old(self)@.points, *validator) == 0 ==> (r matches Err(SlashingStoreError::Persistence(_)))
                && final(self)@ == old(self)@,
            count_at(old(self)@.points, *validator) > 0 ==> r is Ok && final(self)@ == with_points(
                old(self)@,
                *validator,
                sat_sub(count_at(old(self)@.points, *validator), amount),
            ),
    {
        let current = self.slash_count(validator);
        if current == 0 {
            return Err(SlashingStoreError::Persistence(
                String::from_str("validator has no slash count to decrement"),
            ));
        }
        let dec = if amount < current { amount } else { current };
        self.slash_points.insert(*validator, current - dec);
        Ok(())
    }

    /// Decrease the points of `validator` by the minimum offense amount (100).
    pub fn decrement_slash_count(&mut self, validator: &NodeId) -> (r: Result<(), SlashingStoreError>)
        requires
            old(self).wf(),
        ensures
            final(self).wf(),
            count_at(old(self)@.points, *validator) == 0 ==> (r matches Err(SlashingStoreError::Persistence(_)))
                && final(self)@ == old(self)@,
            count_at(old(self)@.points, *validator) > 0 ==> r is Ok && final(self)@ == with_points(
                old(self)@,
                *validator,
                sat_sub(count_at(old(self)@.points, *validator), LIVENESS_VIOLATION_POINTS),
            ),
    {
        self.decrement_slash_count_by(validator, LIVENESS_VIOLATION_POINTS)
    }

    /// The slash and ejection thresholds.
    pub fn thresholds(&self) -> (r: (u64, u64))
        ensures
            r == (self@.slash_threshold, self@.ejection_threshold),
    {
        (self.slash_threshold, self.ejection_threshold)
    }

    /// The points of every validator, in ascending id order.
    pub fn points_listing(&self) -> (r: Vec<(NodeId, u64)>)
        requires
            self.wf(),
        ensures
            crate::vector_clock::sorted_listing(r@, self@.points),
    {
        crate::vector_clock::sorted_entries(&self.slash_points)
    }

    /// The stake of every validator, in ascending id order.
    pub fn stakes_listing(&self) -> (r: Vec<(NodeId, u64)>)
        requires
            self.wf(),
        ensures
            crate::vector_clock::sorted_listing(r@, self@.stakes),
    {
        crate::vector_clock::sorted_entries(&self.stakes)
    }

    /// The validators with a point history, each once.
    pub fn point_history_nodes(&self) -> (r: Vec<NodeId>)
        requires
            self.wf(),
        ensures
            r@.no_duplicates(),
            r@.to_set() == self@.history.dom(),
    {
        self.offense_history.keys()
    }

    /// The point history of `validator` (empty when it has none).
    pub fn point_history(&self, validator: &NodeId) -> (r: Vec<u64>)
        requires
            self.wf(),
        ensures
            r@ == seq_at(self@.history, *validator),
    {
        match self.offense_history.get(validator) {
            Some(v) => copy_u64s(v),
            None => Vec::new(),
        }
    }

    /// The validators with an offense history, each once.
    pub fn offense_history_nodes(&self) -> (r: Vec<NodeId>)
        requires
            self.wf(),
        ensures
            r@.no_duplicates(),
            r@.to_set() == self@.typed_history.dom(),
    {
        self.typed_offense_history.keys()
    }

    /// The offense history of `validator` (empty when it has none).
    pub fn offense_history(&self, validator: &NodeId) -> (r: Vec<SlashOffense>)
        requires
            self.wf(),
        ensures
            r@ == seq_at(self@.typed_history, *validator),
    {
        match self.typed_offense_history.get(validator) {
            Some(v) => copy_offenses(v),
            None => Vec::new(),
        }
    }

    /// The jailed validators, each once.
    pub fn jailed_nodes(&self) -> (r: Vec<NodeId>)
        requires
            self.wf(),
        ensures
            r@.no_duplicates(),
            r@.to_set() == self@.jails.dom(),
    {
        self.jail_registry.keys()
    }

    /// The jail entry of `validator`, if any.
    pub fn jail_of(&self, validator: &NodeId) -> (r: Option<JailState>)
        requires
            self.wf(),
        ensures
            self@.jails.contains_key(*validator) ==> (r matches Some(j) && j@ == self@.jails[*validator]),
            !self@.jails.contains_key(*validator) ==> r is None,
    {
        match self.jail_registry.get(validator) {
            Some(j) => Some(j.duplicate()),
            None => None,
        }
    }

    /// Set the points of `validator`.
    pub fn set_points(&mut self, validator: NodeId, points: u64)
        requires
            old(self).wf(),
        ensures
            final(self).wf(),
            final(self)@ == (SlashingModel { points: old(self)@.points.insert(validator, points), ..old(self)@ }),
    {
        self.slash_points.insert(validator, points);
    }

    /// Set the stake of `validator`.
    pub fn set_stake(&mut self, validator: NodeId, stake: u64)
        requires
            old(self).wf(),
        ensures
            final(self).wf(),
            final(self)@ == (SlashingModel { stakes: old(self)@.stakes.insert(validator, stake), ..old(self)@ }),
    {
        self.stakes.insert(validator, stake);
    }

    /// Set the point history of `validator`.
    pub fn set_point_history(&mut self, validator: NodeId, history: Vec<u64>)
        requires
            old(self).wf(),
        ensures
            final(self).wf(),
            final(self)@ == (SlashingModel { history: old(self)@.history.insert(validator, history@), ..old(self)@ }),
    {
        let ghost h = history@;
        self.offense_history.insert(validator, history);
        proof {
            assert(self@.history =~= old(self)@.history.insert(validator, h));
        }
    }

    /// Set the offense history of `validator`.
    pub fn set_offense_history(&mut self, validator: NodeId, history: Vec<SlashOffense>)
        requires
            old(self).wf(),
        ensures
            final(self).wf(),
            final(self)@ == (SlashingModel {
                typed_history: old(self)@.typed_history.insert(validator, history@),
                ..old(self)@
            }),
    {
        let ghost h = history@;
        self.typed_offense_history.insert(validator, history);
        proof {
            assert(self@.typed_history =~= old(self)@.typed_history.insert(validator, h));
        }
    }

    /// Enter a jail entry, keyed by its validator.
    pub fn set_jail(&mut self, jail: JailState)
        requires
            old(self).wf(),
        ensures
            final(self).wf(),
            final(self)@ == (SlashingModel { jails: old(self)@.jails.insert(jail.validator_id, jail@), ..old(self)@ }),
    {
        let ghost j = jail@;
        let v = jail.validator_id;
        self.jail_registry.insert(v, jail);
        proof {
            assert(self@.jails =~= old(self)@.jails.insert(v, j));
        }
    }
}

} // verus!

verus! {

/// The slashing engine: registers validators, records offenses and
/// determines outcomes, detects equivocation and liveness violations,
/// manages jail terms and applies governance undos.
pub struct SlashingEngine {
    state: SlashingState,
}

impl View for SlashingEngine {
    type V = SlashingModel;

    closed spec fn view(&self) -> SlashingModel {
        self.state@
    }
}

impl SlashingEngine {
    /// Internal consistency.
    pub closed spec fn wf(&self) -> bool {
        self.state.wf()
    }

    /// An engine with empty state and the given thresholds.
    pub fn new_in_memory(slash_threshold: u64, ejection_threshold: u64) -> (r: Self)
        ensures
            r.wf(),
            r@ == empty_model(slash_threshold, ejection_threshold),
    {
        SlashingEngine { state: SlashingState::new(slash_threshold, ejection_threshold) }
    }

    /// An engine resuming from a previously saved state.
    pub fn with_state(state: SlashingState) -> (r: Self)
        requires
            state.wf(),
        ensures
            r.wf(),
            r@ == state@,
    {
        SlashingEngine { state }
    }

    /// A snapshot of the current state.
    pub fn to_state(&self) -> (r: SlashingState)
        requires
            self.wf(),
        ensures
            r.wf(),
            r@ == self@,
    {
        self.state.duplicate()
    }

    /// Register a validator with a stake (replacing an earlier stake); its
    /// points entry is created at zero if it has none.
    pub fn register_validator(&mut self, node: NodeId, stake: u64)
        requires
            old(self).wf(),
        ensures
            final(self).wf(),
            final(self)@ == (SlashingModel {
                stakes: old(self)@.stakes.insert(node, stake),
                points: old(self)@.points.insert(node, count_at(old(self)@.points, node)),
                ..old(self)@
            }),
    {
        self.state.stakes.insert(node, stake);
        let cur = self.state.slash_count(&node);
        self.state.slash_points.insert(node, cur);
    }

    /// Record an offense: add its points (saturating), append it to the
    /// node's histories, and report the outcome for the new total.
    pub fn record_offense(&mut self, node: NodeId, offense: SlashOffense) -> (r: SlashOutcome)
        requires
            old(self).wf(),
        ensures
            final(self).wf(),
            final(self)@ == after_offense(old(self)@, node, offense),
            r == outcome_for(
                final(self)@.points[node],
                node,
                count_at(old(self)@.stakes, node),
                old(self)@.slash_threshold,
                old(self)@.ejection_threshold,
            ),
    {
        let added = offense.points();
        let cur = self.state.slash_count(&node);
        let total = if cur > u64::MAX - added { u64::MAX } else { cur + added };
        self.state.slash_points.insert(node, total);
        let mut h = match self.state.offense_history.get(&node) {
            Some(v) => v.duplicate(),
            None => Vec::new(),
        };
        h.push(added);
        self.state.offense_history.insert(node, h);
        let mut t = match self.state.typed_offense_history.get(&node) {
            Some(v) => copy_offenses(v),
            None => Vec::new(),
        };
        t.push(offense);
        self.state.typed_offense_history.insert(node, t);
        proof {
            let m = after_offense(old(self)@, node, offense);
            assert(self@.history =~= m.history);
            assert(self@.typed_history =~= m.typed_history);
        }
        let stake = match self.state.stakes.get(&node) {
            Some(s) => *s,
            None => 0,
        };
        if total >= self.state.ejection_threshold {
            SlashOutcome::Ejected { node }
        } else if total >= self.state.slash_threshold {
            SlashOutcome::Slashed { node, amount: stake }
        } else {
            SlashOutcome::Warned { node, points: total }
        }
    }

    /// Whether two events equivocate: same creator and sequence number but
    /// different ids. Identifiers are compared in constant time.
    pub fn check_equivocation(event_a: &Event, event_b: &Event) -> (r: bool)
        ensures
            r == (event_a.creator == event_b.creator && event_a.sequence == event_b.sequence
                && event_a.id != event_b.id),
    {
        let creators_match = crate::crypto::ct_eq_bytes(&event_a.creator, &event_b.creator);
        let sequences_match = event_a.sequence == event_b.sequence;
        let ids_equal = crate::crypto::ct_eq_bytes(&event_a.id, &event_b.id);
        proof {
            broadcast use vstd::array::group_array_axioms;

            if event_a.creator@ == event_b.creator@ {
                assert(event_a.creator =~= event_b.creator);
            }
            if event_a.id@ == event_b.id@ {
                assert(event_a.id =~= event_b.id);
            }
        }
        creators_match && sequences_match && !ids_equal
    }

    /// Record a liveness violation when the node has been inactive for more
    /// than `threshold` rounds (`current_round - last_active_round`, saturating).
    pub fn check_liveness(
        &mut self,
        node: NodeId,
        last_active_round: u64,
        current_round: u64,
        threshold: u64,
    ) -> (r: Option<SlashOutcome>)
        requires
            old(self).wf(),
        ensures
            final(self).wf(),
            sat_sub(current_round, last_active_round) > threshold ==> {
                &&& final(self)@ == after_offense(old(self)@, node, SlashOffense::LivenessViolation)
                &&& r == Some(outcome_for(
                    final(self)@.points[node],
                    node,
                    count_at(old(self)@.stakes, node),
                    old(self)@.slash_threshold,
                    old(self)@.ejection_threshold,
                ))
            },
            sat_sub(current_round, last_active_round) <= threshold ==> r.is_none() && final(self)@
                == old(self)@,
    {
        let inactive = if current_round < last_active_round { 0 } else { current_round - last_active_round };
        if inactive > threshold {
            Some(self.record_offense(node, SlashOffense::LivenessViolation))
        } else {
            None
        }
    }

    /// Whether the node's points reach the slash threshold.
    pub fn is_slashed(&self, node: &NodeId) -> (r: bool)
        requires
            self.wf(),
        ensures
            r == model_slashed(self@, *node),
    {
        match self.state.slash_points.get(node) {
            Some(p) => *p >= self.state.slash_threshold,
            None => false,
        }
    }

    /// Whether the node's points reach the ejection threshold.
    pub fn is_ejected(&self, node: &NodeId) -> (r: bool)
        requires
            self.wf(),
        ensures
            r == model_ejected(self@, *node),
    {
        match self.state.slash_points.get(node) {
            Some(p) => *p >= self.state.ejection_threshold,
            None => false,
        }
    }

    /// The node's stake (zero when unregistered).
    pub fn stake_of(&self, node: &NodeId) -> (r: u64)
        requires
            self.wf(),
        ensures
            r == count_at(self@.stakes, *node),
    {
        match self.state.stakes.get(node) {
            Some(s) => *s,
            None => 0,
        }
    }

    /// The node's accumulated points (zero when none).
    pub fn slash_points_of(&self, node: &NodeId) -> (r: u64)
        requires
            self.wf(),
        ensures
            r == count_at(self@.points, *node),
    {
        self.state.slash_count(node)
    }

    /// The validator's accumulated points (same as `slash_points_of`).
    pub fn get_slash_count(&self, validator: &[u8; 32]) -> (r: u64)
        requires
            self.wf(),
        ensures
            r == count_at(self@.points, *validator),
    {
        self.state.slash_count(validator)
    }

    /// Undo the node's most recent offense: pop it from both histories and
    /// subtract its points (saturating). Fails, changing nothing, when the
    /// node has no offense history.
    pub fn undo_slash(&mut self, node: &NodeId) -> (r: Result<(), SlashingStoreError>)
        requires
            old(self).wf(),
        ensures
            final(self).wf(),
            seq_at(old(self)@.history, *node).len() > 0 ==> r is Ok && final(self)@ == after_undo(
                old(self)@,
                *node,
            ),
            seq_at(old(self)@.history, *node).len() == 0 ==> final(self)@ == old(self)@ && r
                == Err::<(), SlashingStoreError>(
                SlashingStoreError::UndoNoOffenseHistory(id_prefix(*node)),
            ),
    {
        let hist = match self.state.offense_history.get(node) {
            Some(v) => v.duplicate(),
            None => Vec::new(),
        };
        if hist.len() == 0 {
            return Err(SlashingStoreError::UndoNoOffenseHistory(prefix4(node)));
        }
        let mut h = hist;
        let last = h.pop().unwrap();
        self.state.offense_history.insert(*node, h);
        let typed = match self.state.typed_offense_history.get(node) {
            Some(v) => Some(copy_offenses(v)),
            None => None,
        };
        match typed {
            Some(mut t) => {
                let ghost before = t@;
                let _ = t.pop();
                proof {
                    assert(t@ =~= drop_last_if_any(before));
                }
                self.state.typed_offense_history.insert(*node, t);
            },
            None => {},
        }
        let cur = self.state.slash_count(node);
        let new_points = if cur < last { 0 } else { cur - last };
        self.state.slash_points.insert(*node, new_points);
        proof {
            let m = after_undo(old(self)@, *node);
            assert(self@.history =~= m.history);
            assert(self@.typed_history =~= m.typed_history);
        }
        Ok(())
    }

    /// The points of every node, in ascending node order.
    pub fn internal_slash_points(&self) -> (r: Vec<(NodeId, u64)>)
        requires
            self.wf(),
        ensures
            crate::vector_clock::sorted_listing(r@, self@.points),
    {
        crate::vector_clock::sorted_entries(&self.state.slash_points)
    }

    /// The stake of every node, in ascending node order.
    pub fn internal_stakes(&self) -> (r: Vec<(NodeId, u64)>)
        requires
            self.wf(),
        ensures
            crate::vector_clock::sorted_listing(r@, self@.stakes),
    {
        crate::vector_clock::sorted_entries(&self.state.stakes)
    }

    /// The configured slash threshold.
    pub fn internal_slash_threshold(&self) -> (r: u64)
        ensures
            r == self@.slash_threshold,
    {
        self.state.slash_threshold
    }

    /// The configured ejection threshold.
    pub fn internal_ejection_threshold(&self) -> (r: u64)
        ensures
            r == self@.ejection_threshold,
    {
        self.state.ejection_threshold
    }
}

/// The first four bytes of an identifier.
pub open spec fn id_prefix(id: NodeId) -> [u8; 4] {
    choose|p: [u8; 4]| p@ == id@.subrange(0, 4)
}

/// The first four bytes of an identifier, for messages.
pub fn prefix4(id: &NodeId) -> (r: [u8; 4])
    ensures
        r == id_prefix(*id),
{
    let r: [u8; 4] = [id[0], id[1], id[2], id[3]];
    proof {
        assert(r@ =~= id@.subrange(0, 4));
        let p = choose|p: [u8; 4]| p@ == id@.subrange(0, 4);
        broadcast use vstd::array::group_array_axioms;

        assert(p =~= r);
    }
    r
}

} // verus!

verus! {

/// The state after a graded offense (see `SlashingEngine::record_offense_graded`).
pub open spec fn graded_model(m: SlashingModel, v: NodeId, offense: SlashOffense, round: u64) -> SlashingModel {
    let after = after_offense(m, v, offense);
    match penalty_for(offense, count_offense(seq_at(m.typed_history, v), offense)) {
        SlashPenalty::Jailed { burn_bps, jail_rounds, auto_release } => SlashingModel {
            jails: after.jails.insert(
                v,
                JailView {
                    validator_id: v,
                    jailed_at_round: round,
                    release_round: sat_add(round, jail_rounds),
                    offense_history: seq_at(after.typed_history, v),
                    stake_locked: burn_amount(count_at(m.stakes, v), burn_bps),
                    auto_release,
                },
            ),
            ..after
        },
        _ => after,
    }
}

/// Jail law: a validator with exactly one prior invalid attestation that
/// commits another at `round` is held in jail at every round before
/// `round + 2000` and released from then on.
pub proof fn lemma_second_invalid_attestation_jails(m: SlashingModel, v: NodeId, round: u64, q: u64)
    requires
        count_offense(seq_at(m.typed_history, v), SlashOffense::InvalidAttestation) == 1,
        round + 2000 <= u64::MAX,
    ensures
        model_jailed_at(graded_model(m, v, SlashOffense::InvalidAttestation, round), v, q) <==> q < round + 2000,
{
    lemma_graded_penalty_table(1);
}

/// The outcome of a graded offense.
pub open spec fn graded_outcome(m: SlashingModel, v: NodeId, offense: SlashOffense) -> SlashOutcome {
    match penalty_for(offense, count_offense(seq_at(m.typed_history, v), offense)) {
        SlashPenalty::Warning { burn_bps } => SlashOutcome::Warned {
            node: v,
            points: burn_amount(count_at(m.stakes, v), burn_bps),
        },
        SlashPenalty::Jailed { burn_bps, .. } => SlashOutcome::Slashed {
            node: v,
            amount: burn_amount(count_at(m.stakes, v), burn_bps),
        },
        SlashPenalty::Ejected { .. } => SlashOutcome::Ejected { node: v },
    }
}

/// Validators whose jail term, with auto-release, is over at `round`.
pub open spec fn expired_jails(m: SlashingModel, round: u64) -> Set<NodeId> {
    Set::new(
        |v: NodeId|
            m.jails.contains_key(v) && m.jails[v].auto_release && round >= m.jails[v].release_round,
    )
}

/// The state after an undo recorded with its rate-limit round and audit record.
pub open spec fn after_recorded_undo(m: SlashingModel, v: NodeId, round: u64, rec: UndoRecordView) -> SlashingModel {
    SlashingModel {
        last_undo: m.last_undo.insert(v, round),
        undo_log: m.undo_log.push(rec),
        ..after_undo(m, v)
    }
}

/// The undo record describing an applied undo.
pub open spec fn undo_record_view(
    m: SlashingModel,
    v: NodeId,
    proposal_hash: [u8; 32],
    slashed_round: u64,
    undo_round: u64,
    timestamp: u64,
    reason: Seq<char>,
) -> UndoRecordView {
    UndoRecordView {
        validator_id: v,
        proposal_hash,
        points_before: count_at(m.points, v),
        points_after: count_at(after_undo(m, v).points, v),
        slashed_round,
        undo_round,
        timestamp,
        reason,
    }
}

impl SlashingEngine {
    /// Number of prior offenses of the given type for a validator.
    fn same_type_count(&self, validator_id: &NodeId, offense: SlashOffense) -> (r: u64)
        requires
            self.wf(),
        ensures
            r == count_offense(seq_at(self@.typed_history, *validator_id), offense),
    {
        let hist = self.get_offense_history(*validator_id);
        let mut cnt: u64 = 0;
        let mut i: usize = 0;
        while i < hist.len()
            invariant
                i <= hist@.len(),
                hist@ == seq_at(self@.typed_history, *validator_id),
                cnt == count_offense(hist@.subrange(0, i as int), offense),
                cnt <= i,
            decreases hist@.len() - i,
        {
            proof {
                assert(hist@.subrange(0, i + 1).drop_last() =~= hist@.subrange(0, i as int));
            }
            if hist[i] == offense {
                cnt = cnt + 1;
            }
            i = i + 1;
        }
        proof {
            assert(hist@.subrange(0, hist@.len() as int) =~= hist@);
        }
        cnt
    }

    /// The graded penalty for `offense`, escalating with the number of prior
    /// offenses of the same type (first / second / third and later):
    /// equivocation jail 5% 1000 rounds, jail 25% 5000 rounds without
    /// auto-release, ejection; liveness warning 1%, warning 1%, jail 5% 500
    /// rounds; invalid attestation warning 2%, jail 10% 2000 rounds, ejection.
    pub fn compute_penalty(&self, validator_id: NodeId, offense: &SlashOffense) -> (r: SlashPenalty)
        requires
            self.wf(),
        ensures
            r == penalty_for(*offense, count_offense(seq_at(self@.typed_history, validator_id), *offense)),
    {
        let n = self.same_type_count(&validator_id, *offense);
        match offense {
            SlashOffense::Equivocation => {
                if n == 0 {
                    SlashPenalty::Jailed { burn_bps: 500, jail_rounds: 1000, auto_release: true }
                } else if n == 1 {
                    SlashPenalty::Jailed { burn_bps: 2500, jail_rounds: 5000, auto_release: false }
                } else {
                    SlashPenalty::Ejected { burn_bps: 10000, reason: EjectionReason::RepeatEquivocation }
                }
            },
            SlashOffense::LivenessViolation => {
                if n < 2 {
                    SlashPenalty::Warning { burn_bps: 100 }
                } else {
                    SlashPenalty::Jailed { burn_bps: 500, jail_rounds: 500, auto_release: true }
                }
            },
            SlashOffense::InvalidAttestation => {
                if n == 0 {
                    SlashPenalty::Warning { burn_bps: 200 }
                } else if n == 1 {
                    SlashPenalty::Jailed { burn_bps: 1000, jail_rounds: 2000, auto_release: true }
                } else {
                    SlashPenalty::Ejected {
                        burn_bps: 10000,
                        reason: EjectionReason::RepeatInvalidAttestation,
                    }
                }
            },
        }
    }

    /// Whether the validator is jailed at `current_round`: it has a jail
    /// entry, and either no auto-release or its release round is later.
    pub fn is_jailed(&self, validator_id: NodeId, current_round: u64) -> (r: bool)
        requires
            self.wf(),
        ensures
            r == model_jailed_at(self@, validator_id, current_round),
    {
        match self.state.jail_registry.get(&validator_id) {
            Some(jail) => {
                if jail.auto_release && current_round >= jail.release_round {
                    false
                } else {
                    true
                }
            },
            None => false,
        }
    }

    /// Whether the validator may not participate at `current_round`
    /// (the same rule as `is_jailed`).
    pub fn is_jailed_at(&self, validator_id: NodeId, current_round: u64) -> (r: bool)
        requires
            self.wf(),
        ensures
            r == model_jailed_at(self@, validator_id, current_round),
    {
        match self.state.jail_registry.get(&validator_id) {
            Some(jail) => {
                if !jail.auto_release {
                    true
                } else {
                    current_round < jail.release_round
                }
            },
            None => false,
        }
    }

    /// Release the validator when its release round has been reached
    /// (whatever its auto-release flag). Returns whether it was released.
    pub fn try_release_from_jail(&mut self, validator_id: NodeId, current_round: u64) -> (r: Result<bool, SlashingStoreError>)
        requires
            old(self).wf(),
        ensures
            final(self).wf(),
            (old(self)@.jails.contains_key(validator_id) && current_round >= old(self)@.jails[validator_id].release_round) ==> {
                &&& r == Ok::<bool, SlashingStoreError>(true)
                &&& final(self)@ == (SlashingModel { jails: old(self)@.jails.remove(validator_id), ..old(self)@ })
            },
            !(old(self)@.jails.contains_key(validator_id) && current_round >= old(self)@.jails[validator_id].release_round) ==> {
                &&& r == Ok::<bool, SlashingStoreError>(false)
                &&& final(self)@ == old(self)@
            },
    {
        let release = match self.state.jail_registry.get(&validator_id) {
            Some(jail) => current_round >= jail.release_round,
            None => false,
        };
        if release {
            self.state.jail_registry.remove(&validator_id);
            proof {
                assert(self@.jails =~= old(self)@.jails.remove(validator_id));
            }
            Ok(true)
        } else {
            Ok(false)
        }
    }

    /// Copies of all jail entries.
    pub fn jailed_validators(&self) -> (r: Vec<JailState>)
        requires
            self.wf(),
        ensures
            r@.len() == self@.jails.len(),
            forall|i: int| 0 <= i < r@.len() ==> #[trigger] self@.jails.contains_key(r@[i].validator_id)
                || self@.jails.values().contains(r@[i]@),
            forall|i: int| 0 <= i < r@.len() ==> self@.jails.values().contains(#[trigger] r@[i]@),
            forall|v: NodeId| #[trigger] self@.jails.contains_key(v) ==> exists|i: int| 0 <= i < r@.len() && r@[i]@ == self@.jails[v],
    {
        let reg = &self.state.jail_registry;
        proof {
            reg.lemma_entries();
        }
        let n = reg.len();
        let mut r: Vec<JailState> = Vec::new();
        let mut i: usize = 0;
        while i < n
            invariant
                reg.wf(),
                n == reg.entry_seq().len(),
                i <= n,
                r@.len() == i,
                forall|j: int| 0 <= j < i ==> (#[trigger] r@[j])@ == reg.entry_seq()[j].1@,
            decreases n - i,
        {
            r.push(reg.value_at(i).duplicate());
            i = i + 1;
        }
        proof {
            reg.lemma_entries();
            assert forall|j: int| 0 <= j < r@.len() implies self@.jails.values().contains(#[trigger] r@[j]@) by {
                let k = reg.entry_seq()[j].0;
                assert(reg@.contains_key(k));
                assert(self@.jails.contains_key(k));
                assert(self@.jails[k] == r@[j]@);
            }
            assert forall|v: NodeId| #[trigger] self@.jails.contains_key(v) implies exists|j: int| 0 <= j < r@.len() && r@[j]@ == self@.jails[v] by {
                assert(reg@.contains_key(v));
                let j = choose|j: int| 0 <= j < reg.entry_seq().len() && #[trigger] reg.entry_seq()[j].0 == v;
                assert(r@[j]@ == reg.entry_seq()[j].1@);
            }
            assert(self@.jails.dom() =~= reg@.dom());
        }
        r
    }

    /// The validator's offense types, oldest first (empty when none).
    pub fn get_offense_history(&self, validator_id: NodeId) -> (r: Vec<SlashOffense>)
        requires
            self.wf(),
        ensures
            r@ == seq_at(self@.typed_history, validator_id),
    {
        match self.state.typed_offense_history.get(&validator_id) {
            Some(v) => copy_offenses(v),
            None => Vec::new(),
        }
    }

    /// `stake * burn_bps / 10 000` in 128-bit arithmetic, truncated to 64
    /// bits (exact whenever `burn_bps <= 10 000`).
    pub fn compute_burn_amount_bp(stake: u64, burn_bps: u64) -> (r: u64)
        ensures
            r == burn_amount(stake, burn_bps),
    {
        proof {
            vstd::arithmetic::mul::lemma_mul_upper_bound(
                stake as int,
                u64::MAX as int,
                burn_bps as int,
                u64::MAX as int,
            );
            assert(u64::MAX as int * u64::MAX as int <= u128::MAX) by (nonlinear_arith);
        }
        let prod: u128 = (stake as u128) * (burn_bps as u128);
        let q: u128 = prod / 10_000;
        q as u64
    }

    /// The burn amount for a registered validator's stake, or `None` when
    /// the validator has no stake.
    pub fn compute_burn_amount_for(&self, validator_id: NodeId, burn_bps: u64) -> (r: Option<u64>)
        requires
            self.wf(),
        ensures
            count_at(self@.stakes, validator_id) == 0 ==> r.is_none(),
            count_at(self@.stakes, validator_id) > 0 ==> r == Some(burn_amount(count_at(self@.stakes, validator_id), burn_bps)),
    {
        let stake = self.stake_of(&validator_id);
        if stake == 0 {
            return None;
        }
        Some(Self::compute_burn_amount_bp(stake, burn_bps))
    }

    /// Record an offense under the graded model: the penalty from
    /// `compute_penalty` decides the outcome. A warning burns a share of the
    /// stake (reported as `Warned` with the burn amount as points); a jail
    /// term also enters the validator into jail until `current_round +
    /// jail_rounds` (reported as `Slashed` with the burn amount); ejection is
    /// reported as `Ejected`. The offense is recorded as by `record_offense`.
    pub fn record_offense_graded(&mut self, validator_id: NodeId, offense: SlashOffense, current_round: u64) -> (r: SlashOutcome)
        requires
            old(self).wf(),
        ensures
            final(self).wf(),
            final(self)@ == graded_model(old(self)@, validator_id, offense, current_round),
            r == graded_outcome(old(self)@, validator_id, offense),
    {
        let penalty = self.compute_penalty(validator_id, &offense);
        let stake = self.stake_of(&validator_id);
        match penalty {
            SlashPenalty::Warning { burn_bps } => {
                let burn = Self::compute_burn_amount_bp(stake, burn_bps);
                let _ = self.record_offense(validator_id, offense);
                SlashOutcome::Warned { node: validator_id, points: burn }
            },
            SlashPenalty::Jailed { burn_bps, jail_rounds, auto_release } => {
                let burn = Self::compute_burn_amount_bp(stake, burn_bps);
                let _ = self.record_offense(validator_id, offense);
                let release_round = if current_round > u64::MAX - jail_rounds {
                    u64::MAX
                } else {
                    current_round + jail_rounds
                };
                let offense_history = self.get_offense_history(validator_id);
                let jail = JailState {
                    validator_id,
                    jailed_at_round: current_round,
                    release_round,
                    offense_history,
                    stake_locked: burn,
                    auto_release,
                };
                self.state.jail_registry.insert(validator_id, jail);
                proof {
                    let g = graded_model(old(self)@, validator_id, offense, current_round);
                    assert(self@.jails =~= g.jails);
                }
                SlashOutcome::Slashed { node: validator_id, amount: burn }
            },
            SlashPenalty::Ejected { .. } => {
                let _ = self.record_offense(validator_id, offense);
                SlashOutcome::Ejected { node: validator_id }
            },
        }
    }

    /// Release every validator whose auto-release jail term is over at
    /// `current_round`; returns the released validators.
    pub fn release_expired_jails(&mut self, current_round: u64) -> (r: Vec<NodeId>)
        requires
            old(self).wf(),
        ensures
            final(self).wf(),
            r@.to_set() == expired_jails(old(self)@, current_round),
            r@.no_duplicates(),
            final(self)@ == (SlashingModel {
                jails: old(self)@.jails.remove_keys(expired_jails(old(self)@, current_round)),
                ..old(self)@
            }),
    {
        let ghost ex = expired_jails(old(self)@, current_round);
        let mut released: Vec<NodeId> = Vec::new();
        {
            let reg = &self.state.jail_registry;
            proof {
                reg.lemma_entries();
                assert(old(self)@.jails == reg@.map_values(|j: JailState| j@));
            }
            let n = reg.len();
            let mut i: usize = 0;
            while i < n
                invariant
                    reg.wf(),
                    n == reg.entry_seq().len(),
                    i <= n,
                    reg@ == old(self).state.jail_registry@,
                    forall|k: NodeId| #[trigger] old(self)@.jails.contains_key(k) == reg@.contains_key(k),
                    forall|k: NodeId| reg@.contains_key(k) ==> #[trigger] old(self)@.jails[k] == reg@[k]@,
                    ex == expired_jails(old(self)@, current_round),
                    forall|j: int| 0 <= j < reg.entry_seq().len() ==> #[trigger] reg@.contains_key(reg.entry_seq()[j].0) && reg@[reg.entry_seq()[j].0] == reg.entry_seq()[j].1,
                    forall|a: int, b: int| 0 <= a < reg.entry_seq().len() && 0 <= b < reg.entry_seq().len() && a != b ==> #[trigger] reg.entry_seq()[a].0 != #[trigger] reg.entry_seq()[b].0,
                    released@.no_duplicates(),
                    forall|x: NodeId| #[trigger] released@.contains(x) <==> exists|j: int| 0 <= j < i && reg.entry_seq()[j].0 == x && ex.contains(x),
                decreases n - i,
            {
                let jail = reg.value_at(i);
                let k = *reg.key_at(i);
                proof {
                    assert(reg@.contains_key(reg.entry_seq()[i as int].0));
                    assert(reg@[k] == *jail);
                    assert(old(self)@.jails[k] == jail@);
                    assert(old(self)@.jails.contains_key(k));
                }
                if jail.auto_release && current_round >= jail.release_round {
                    proof {
                        assert(ex.contains(k));
                        assert(!released@.contains(k)) by {
                            if released@.contains(k) {
                                let j = choose|j: int| 0 <= j < i && reg.entry_seq()[j].0 == k && ex.contains(k);
                                assert(reg.entry_seq()[j].0 != reg.entry_seq()[i as int].0);
                            }
                        }
                    }
                    let ghost prev = released@;
                    released.push(k);
                    proof {
                        assert forall|x: NodeId| #[trigger] released@.contains(x) <==> exists|j: int| 0 <= j < i + 1 && reg.entry_seq()[j].0 == x && ex.contains(x) by {
                            if released@.contains(x) && x != k {
                                let p = choose|p: int| 0 <= p < released@.len() && released@[p] == x;
                                assert(prev.contains(x) || p == released@.len() - 1);
                            }
                            if exists|j: int| 0 <= j < i + 1 && reg.entry_seq()[j].0 == x && ex.contains(x) {
                                if x != k {
                                    let j = choose|j: int| 0 <= j < i + 1 && reg.entry_seq()[j].0 == x && ex.contains(x);
                                    assert(j != i);
                                    assert(prev.contains(x));
                                    let p = choose|p: int| 0 <= p < prev.len() && prev[p] == x;
                                    assert(released@[p] == x);
                                } else {
                                    assert(released@[released@.len() - 1] == k);
                                }
                            }
                        }
                    }
                } else {
                    proof {
                        assert(!ex.contains(k));
                        assert forall|x: NodeId| #[trigger] released@.contains(x) <==> exists|j: int| 0 <= j < i + 1 && reg.entry_seq()[j].0 == x && ex.contains(x) by {
                            if exists|j: int| 0 <= j < i + 1 && reg.entry_seq()[j].0 == x && ex.contains(x) {
                                let j = choose|j: int| 0 <= j < i + 1 && reg.entry_seq()[j].0 == x && ex.contains(x);
                                assert(j != i);
                            }
                        }
                    }
                }
                i = i + 1;
            }
            proof {
                assert forall|x: NodeId| #[trigger] released@.contains(x) <==> ex.contains(x) by {
                    if ex.contains(x) {
                        assert(reg@.contains_key(x));
                        let j = choose|j: int| 0 <= j < reg.entry_seq().len() && #[trigger] reg.entry_seq()[j].0 == x;
                    }
                }
                assert(released@.to_set() =~= ex);
            }
        }
        let mut j: usize = 0;
        proof {
            assert(released@.subrange(0, 0).to_set() =~= Set::<NodeId>::empty());
            assert(old(self)@.jails.remove_keys(Set::<NodeId>::empty()) =~= old(self)@.jails);
        }
        while j < released.len()
            invariant
                self.wf(),
                j <= released@.len(),
                released@.to_set() == ex,
                released@.no_duplicates(),
                self@ == (SlashingModel {
                    jails: old(self)@.jails.remove_keys(released@.subrange(0, j as int).to_set()),
                    ..old(self)@
                }),
            decreases released@.len() - j,
        {
            let k = released[j];
            let ghost before = self@;
            self.state.jail_registry.remove(&k);
            proof {
                assert(self@.jails =~= before.jails.remove(k));
                let prev = released@.subrange(0, j as int).to_set();
                let next = released@.subrange(0, j + 1).to_set();
                assert(released@.subrange(0, j + 1) =~= released@.subrange(0, j as int).push(k));
                released@.subrange(0, j as int).lemma_push_to_set_commute(k);
                assert(next =~= prev.insert(k));
                assert(self@.jails =~= old(self)@.jails.remove_keys(next));
            }
            j = j + 1;
        }
        proof {
            assert(released@.subrange(0, released@.len() as int) =~= released@);
        }
        released
    }

    /// The round of the validator's last governance undo, if any.
    pub fn last_undo_round(&self, validator_id: &NodeId) -> (r: Option<u64>)
        requires
            self.wf(),
        ensures
            self@.last_undo.contains_key(*validator_id) ==> r == Some(self@.last_undo[*validator_id]),
            !self@.last_undo.contains_key(*validator_id) ==> r.is_none(),
    {
        match self.state.last_undo_rounds.get(validator_id) {
            Some(r) => Some(*r),
            None => None,
        }
    }

    /// Copies of all applied undo records, oldest first.
    pub fn undo_audit_log(&self) -> (r: Vec<SlashingUndoRecord>)
        requires
            self.wf(),
        ensures
            r@.map_values(|x: SlashingUndoRecord| x@) == self@.undo_log,
    {
        let r = duplicate_vec(&self.state.undo_log);
        proof {
            assert(r@.map_values(|x: SlashingUndoRecord| x@) =~= self@.undo_log);
        }
        r
    }

    /// Undo the validator's most recent offense and record it: stamp the
    /// rate-limit round and append an audit record. Fails, changing nothing,
    /// when the validator has no offense history.
    pub fn record_undo(
        &mut self,
        validator_id: &NodeId,
        current_round: u64,
        slashed_round: u64,
        undo_round: u64,
        proposal_hash: [u8; 32],
        reason: String,
        timestamp: u64,
    ) -> (r: Result<SlashingUndoRecord, SlashingStoreError>)
        requires
            old(self).wf(),
        ensures
            final(self).wf(),
            seq_at(old(self)@.history, *validator_id).len() == 0 ==> final(self)@ == old(self)@
                && r == Err::<SlashingUndoRecord, SlashingStoreError>(
                SlashingStoreError::UndoNoOffenseHistory(id_prefix(*validator_id)),
            ),
            seq_at(old(self)@.history, *validator_id).len() > 0 ==> (r matches Ok(rec) && rec@
                == undo_record_view(
                old(self)@,
                *validator_id,
                proposal_hash,
                slashed_round,
                undo_round,
                timestamp,
                reason@,
            ) && final(self)@ == after_recorded_undo(old(self)@, *validator_id, current_round, rec@)),
    {
        let points_before = self.slash_points_of(validator_id);
        match self.undo_slash(validator_id) {
            Ok(()) => {},
            Err(e) => {
                return Err(e);
            },
        }
        let points_after = self.slash_points_of(validator_id);
        self.state.last_undo_rounds.insert(*validator_id, current_round);
        let record = SlashingUndoRecord {
            validator_id: *validator_id,
            proposal_hash,
            points_before,
            points_after,
            slashed_round,
            undo_round,
            timestamp,
            reason,
        };
        self.state.undo_log.push(record.duplicate());
        proof {
            assert(self@.undo_log =~= old(self)@.undo_log.push(record@));
        }
        Ok(record)
    }
}

} // verus!

verus! {

/// Storage for slashing state.
pub trait SlashingStore: Sized {
    /// Load the stored state.
    fn load(&self) -> (r: Result<SlashingState, SlashingStoreError>)
        ensures
            r matches Ok(s) ==> s.wf(),
    ;

    /// Replace the stored state.
    fn save(&mut self, state: &SlashingState) -> (r: Result<(), SlashingStoreError>)
        requires
            state.wf(),
    ;

    /// Points of `validator` in the stored state; zero when it has none
    /// (or when the state cannot be read).
    fn get_slash_count(&self, validator: &[u8; 32]) -> u64;

    /// Decrease the stored points of `validator` by `amount` (at most to
    /// zero); fails when it has no points.
    fn decrement_slash_count_by(&mut self, validator: &[u8; 32], amount: u64) -> Result<(), SlashingStoreError>;

    /// Decrease the stored points of `validator` by the minimum offense
    /// amount (100).
    fn decrement_slash_count(&mut self, validator: &[u8; 32]) -> Result<(), SlashingStoreError> {
        self.decrement_slash_count_by(validator, LIVENESS_VIOLATION_POINTS)
    }
}

/// A slashing store kept in memory (lost on restart).
pub struct InMemorySlashingStore {
    state: SlashingState,
}

impl InMemorySlashingStore {
    #[verifier::type_invariant]
    spec fn inv(&self) -> bool {
        self.state.wf()
    }

    /// The state held by the store.
    pub closed spec fn stored(&self) -> SlashingModel {
        self.state@
    }

    /// A store holding the default state.
    pub fn new() -> (r: Self)
        ensures
            r.stored() == empty_model(DEFAULT_SLASH_THRESHOLD, DEFAULT_EJECTION_THRESHOLD),
    {
        InMemorySlashingStore { state: SlashingState::default() }
    }
}

impl Default for InMemorySlashingStore {
    fn default() -> (r: Self)
        ensures
            r.stored() == empty_model(DEFAULT_SLASH_THRESHOLD, DEFAULT_EJECTION_THRESHOLD),
    {
        InMemorySlashingStore::new()
    }
}

impl SlashingStore for InMemorySlashingStore {
    /// A copy of the held state; never fails.
    fn load(&self) -> (r: Result<SlashingState, SlashingStoreError>)
        ensures
            r matches Ok(s) && s@ == self.stored(),
    {
        proof {
            use_type_invariant(self);
        }
        Ok(self.state.duplicate())
    }

    /// Hold a copy of `state`; never fails.
    fn save(&mut self, state: &SlashingState) -> (r: Result<(), SlashingStoreError>)
        ensures
            r is Ok,
            final(self).stored() == state@,
    {
        self.state = state.duplicate();
        Ok(())
    }

    /// The held points of `validator`.
    fn get_slash_count(&self, validator: &[u8; 32]) -> (r: u64)
        ensures
            r == count_at(self.stored().points, *validator),
    {
        proof {
            use_type_invariant(self);
        }
        self.state.slash_count(validator)
    }

    /// As `SlashingState::decrement_slash_count_by` on the held state.
    fn decrement_slash_count_by(&mut self, validator: &[u8; 32], amount: u64) -> (r: Result<(), SlashingStoreError>)
        ensures
            count_at(old(self).stored().points, *validator) == 0 ==> (r matches Err(
                SlashingStoreError::Persistence(_),
            )) && final(self).stored() == old(
                self,
            ).stored(),
            count_at(old(self).stored().points, *validator) > 0 ==> r is Ok && final(self).stored() == with_points(
                old(self).stored(),
                *validator,
                sat_sub(count_at(old(self).stored().points, *validator), amount),
            ),
    {
        proof {
            use_type_invariant(&*self);
        }
        let mut st = SlashingState::default();
        std::mem::swap(&mut st, &mut self.state);
        let r = st.decrement_slash_count_by(validator, amount);
        self.state = st;
        r
    }
}

impl SlashingEngine {
    /// An engine over the state loaded from `store`; the store's error when
    /// it cannot be read.
    pub fn with_store<S: SlashingStore>(store: &S) -> (r: Result<Self, SlashingStoreError>)
        ensures
            r matches Ok(e) ==> e.wf(),
    {
        let loaded = store.load();
        SlashingEngine::with_loaded(loaded)
    }

    /// An engine over a loaded state: the engine holds exactly the state
    /// when the load succeeded, and the load's error is passed on unchanged.
    pub fn with_loaded(loaded: Result<SlashingState, SlashingStoreError>) -> (r: Result<Self, SlashingStoreError>)
        requires
            loaded matches Ok(s) ==> s.wf(),
        ensures
            loaded matches Ok(s) ==> (r matches Ok(e) && e.wf() && e@ == s@),
            loaded matches Err(x) ==> r == Err::<Self, SlashingStoreError>(x),
    {
        match loaded {
            Ok(state) => Ok(SlashingEngine::with_state(state)),
            Err(e) => Err(e),
        }
    }

    /// Save the engine's state to `store` (what the store makes of it is
    /// the store's own).
    pub fn persist_to<S: SlashingStore>(&self, store: &mut S) -> (r: Result<(), SlashingStoreError>)
        requires
            self.wf(),
    {
        store.save(&self.state)
    }

    /// Save the engine's state to `store` after a change; when the save
    /// fails, return to `snapshot`, the state from before the change, and
    /// pass the store's error on.
    pub fn persist_or_restore<S: SlashingStore>(&mut self, store: &mut S, snapshot: SlashingState) -> (r: Result<(), SlashingStoreError>)
        requires
            old(self).wf(),
            snapshot.wf(),
        ensures
            final(self).wf(),
            r is Ok ==> final(self)@ == old(self)@,
            r is Err ==> final(self)@ == snapshot@,
    {
        match store.save(&self.state) {
            Ok(()) => Ok(()),
            Err(e) => {
                self.state = snapshot;
                Err(e)
            },
        }
    }
}

} // verus!
