//! Governance-authorized reversal of slashing decisions.
//!
//! A governance proposal creates a [`SlashingUndoRequest`] signed by a
//! quorum of governance keys. The [`SlashingUndoManager`] checks the quorum
//! and the per-validator rate limit, then has the slashing engine remove the
//! points of the validator's most recent offense and append an audit record.
use vstd::prelude::*;
use vstd::string::StringSliceAdditionalSpecFns;
use vstd::utf8::encode_utf8;
use crate::ids::NodeId;
use crate::ids::id_eq;
use crate::ids::le_bytes_u64;
use crate::ids::push_le_u64;
use crate::crypto::append_bytes;
use crate::crypto::blake3_hash_domain;
use crate::crypto::domain_hash;
use crate::crypto::ed25519_accepts;
use crate::crypto::ed25519_verify;
use crate::slashing::SlashingEngine;
use crate::slashing::SlashingStoreError;
use crate::slashing::SlashingUndoRecord;
use crate::slashing::UndoRecordView;
use crate::slashing::SlashingModel;
use crate::slashing::seq_at;
use crate::slashing::sat_sub;
use crate::slashing::id_prefix;
use crate::slashing::prefix4;
use crate::slashing::undo_record_view;
use crate::slashing::after_recorded_undo;
use crate::sys::current_timestamp;
use crate::vec_map::Duplicate;

verus! {

/// Minimum number of rounds between successive undos for the same validator.
pub const DEFAULT_MIN_UNDO_INTERVAL: u64 = 1000;

/// Errors of governance undo operations.
#[derive(Debug)]
pub enum SlashingUndoError {
    /// No governance quorum authorized the request.
    Unauthorized(String),
    /// The previous undo for this validator is too recent.
    RateLimitExceeded {
        /// First four bytes of the validator id.
        validator_prefix: [u8; 4],
        /// Round of the previous undo.
        last_round: u64,
        /// The current round.
        current_round: u64,
        /// Minimum interval between undos.
        min_interval: u64,
    },
    /// The validator has no offense history to undo.
    NoOffenseHistory([u8; 4]),
    /// The slashing engine could not apply the undo.
    UndoFailed(SlashingStoreError),
}

impl From<SlashingStoreError> for SlashingUndoError {
    fn from(e: SlashingStoreError) -> (r: SlashingUndoError) {
        SlashingUndoError::UndoFailed(e)
    }
}

impl vstd::std_specs::convert::FromSpecImpl<SlashingStoreError> for SlashingUndoError {
    open spec fn obeys_from_spec() -> bool {
        true
    }

    open spec fn from_spec(e: SlashingStoreError) -> SlashingUndoError {
        SlashingUndoError::UndoFailed(e)
    }
}

/// The message of a governance undo error.
pub open spec fn undo_error_text(e: SlashingUndoError) -> Seq<char> {
    match e {
        SlashingUndoError::Unauthorized(m) => "governance authorization failed: "@ + m@,
        SlashingUndoError::RateLimitExceeded { .. } => "rate limit: the last undo for this validator is too recent"@,
        SlashingUndoError::NoOffenseHistory(_) => "validator has no offense history to undo"@,
        SlashingUndoError::UndoFailed(e) => "slashing undo failed: "@ + crate::slashing::slashing_store_error_text(e),
    }
}

impl SlashingUndoError {
    /// A human-readable description of the error.
    pub fn message(&self) -> (r: String)
        ensures
            r@ == undo_error_text(*self),
    {
        match self {
            SlashingUndoError::Unauthorized(m) => {
                let mut s = String::from_str("governance authorization failed: ");
                s.append(m.as_str());
                s
            },
            SlashingUndoError::RateLimitExceeded { .. } => {
                String::from_str("rate limit: the last undo for this validator is too recent")
            },
            SlashingUndoError::NoOffenseHistory(_) => {
                String::from_str("validator has no offense history to undo")
            },
            SlashingUndoError::UndoFailed(e) => {
                let mut s = String::from_str("slashing undo failed: ");
                let inner = e.message();
                s.append(inner.as_str());
                s
            },
        }
    }
}

/// A governance signature over a request's authorization commitment.
pub struct GovernanceSignature {
    /// Index of the signing key in the authority's key set.
    pub key_index: u32,
    /// The Ed25519 signature bytes (64 when well formed).
    pub signature: Vec<u8>,
}

/// A request to reverse the most recent offense of one validator.
pub struct SlashingUndoRequest {
    /// The validator whose slash is reversed.
    pub validator_id: NodeId,
    /// The round in which the slash was recorded.
    pub slashed_round: u64,
    /// The round at which the undo is requested.
    pub undo_round: u64,
    /// Hash of the authorizing governance proposal.
    pub proposal_hash: [u8; 32],
    /// A human-readable reason.
    pub reason: String,
    /// Signatures by governance keys over the authorization commitment.
    pub governance_signatures: Vec<GovernanceSignature>,
}

/// The domain tag of authorization commitments.
pub open spec fn undo_domain() -> Seq<u8> {
    "OMNIA-SLASHING-UNDO-GOV-V1".spec_bytes()
}

/// The bytes an authorization commitment binds: the validator, both rounds,
/// the proposal hash and the length-prefixed UTF-8 reason.
pub open spec fn commitment_message(
    validator_id: NodeId,
    slashed_round: u64,
    undo_round: u64,
    proposal_hash: [u8; 32],
    reason: Seq<char>,
) -> Seq<u8> {
    let rb = encode_utf8(reason);
    validator_id@ + le_bytes_u64(slashed_round) + le_bytes_u64(undo_round) + proposal_hash@
        + le_bytes_u64(rb.len() as u64) + rb
}

/// The commitment governance keys sign for this request.
pub open spec fn request_commitment(r: SlashingUndoRequest) -> [u8; 32] {
    domain_hash(
        undo_domain(),
        commitment_message(r.validator_id, r.slashed_round, r.undo_round, r.proposal_hash, r.reason@),
    )
}

impl SlashingUndoRequest {
    /// The message governance keys sign to authorize this undo; a signature
    /// for one request does not authorize another.
    pub fn authorization_commitment(&self) -> (r: [u8; 32])
        ensures
            r == request_commitment(*self),
    {
        let rb = self.reason.as_str().as_bytes();
        let mut buf: Vec<u8> = Vec::new();
        append_bytes(&mut buf, &self.validator_id);
        push_le_u64(&mut buf, self.slashed_round);
        push_le_u64(&mut buf, self.undo_round);
        append_bytes(&mut buf, &self.proposal_hash);
        push_le_u64(&mut buf, rb.len() as u64);
        append_bytes(&mut buf, rb);
        proof {
            assert(buf@ =~= commitment_message(
                self.validator_id,
                self.slashed_round,
                self.undo_round,
                self.proposal_hash,
                self.reason@,
            ));
        }
        blake3_hash_domain("OMNIA-SLASHING-UNDO-GOV-V1".as_bytes(), buf.as_slice())
    }
}

/// Whether signature `i` counts toward the quorum: its key index is in
/// range, no earlier signature used that index, and it verifies.
pub open spec fn signature_counts(
    keys: Seq<[u8; 32]>,
    commitment: [u8; 32],
    sigs: Seq<GovernanceSignature>,
    i: int,
) -> bool {
    &&& (sigs[i].key_index as int) < keys.len()
    &&& forall|j: int| 0 <= j < i ==> #[trigger] sigs[j].key_index != sigs[i].key_index
    &&& ed25519_accepts(keys[sigs[i].key_index as int], commitment@, sigs[i].signature@)
}

/// The number of counting signatures among the first `n`.
pub open spec fn valid_signature_count(
    keys: Seq<[u8; 32]>,
    commitment: [u8; 32],
    sigs: Seq<GovernanceSignature>,
    n: int,
) -> nat
    decreases n,
{
    if n <= 0 {
        0
    } else {
        valid_signature_count(keys, commitment, sigs, n - 1) + if signature_counts(
            keys,
            commitment,
            sigs,
            n - 1,
        ) {
            1nat
        } else {
            0nat
        }
    }
}

/// The registered governance keys and the quorum threshold.
pub struct GovernanceAuthority {
    keys: Vec<[u8; 32]>,
    threshold: usize,
}

impl GovernanceAuthority {
    #[verifier::type_invariant]
    spec fn valid(self) -> bool {
        1 <= self.threshold <= self.keys@.len()
    }

    /// The registered keys.
    pub closed spec fn key_seq(self) -> Seq<[u8; 32]> {
        self.keys@
    }

    /// The quorum threshold.
    pub closed spec fn threshold_spec(self) -> nat {
        self.threshold as nat
    }

    /// Whether the signatures form a quorum over `commitment`.
    pub open spec fn accepts(self, commitment: [u8; 32], sigs: Seq<GovernanceSignature>) -> bool {
        valid_signature_count(self.key_seq(), commitment, sigs, sigs.len() as int) >= self.threshold_spec()
    }

    /// An authority with the given keys and threshold; refused unless
    /// `1 <= threshold <= keys.len()`.
    pub fn new(keys: Vec<[u8; 32]>, threshold: usize) -> (r: Result<GovernanceAuthority, SlashingUndoError>)
        ensures
            (keys@.len() == 0 || threshold == 0 || threshold > keys@.len()) <==> r is Err,
            r matches Err(e) ==> e is Unauthorized,
            r matches Ok(a) ==> a.key_seq() == keys@ && a.threshold_spec() == threshold,
    {
        if keys.len() == 0 || threshold == 0 || threshold > keys.len() {
            return Err(
                SlashingUndoError::Unauthorized(
                    String::from_str("invalid governance authority: bad key count or threshold"),
                ),
            );
        }
        Ok(GovernanceAuthority { keys, threshold })
    }

    /// Whether `signatures` hold at least the threshold of valid signatures
    /// by distinct registered keys over `commitment`. A signature whose key
    /// index is out of range is skipped; one that repeats an earlier index
    /// is skipped whether or not the earlier one verified.
    pub fn verify(&self, commitment: &[u8; 32], signatures: &[GovernanceSignature]) -> (r: bool)
        ensures
            r == self.accepts(*commitment, signatures@),
    {
        proof {
            use_type_invariant(self);
        }
        let nkeys = self.keys.len();
        let mut seen: Vec<bool> = Vec::new();
        let mut k: usize = 0;
        while k < nkeys
            invariant
                k <= nkeys,
                seen@.len() == k,
                forall|j: int| 0 <= j < k ==> !(#[trigger] seen@[j]),
            decreases nkeys - k,
        {
            seen.push(false);
            k = k + 1;
        }
        let ghost keys = self.keys@;
        let ghost sigs = signatures@;
        let mut valid: usize = 0;
        let mut i: usize = 0;
        while i < signatures.len()
            invariant
                nkeys == keys.len(),
                keys == self.key_seq(),
                sigs == signatures@,
                1 <= self.threshold <= nkeys,
                i <= sigs.len(),
                seen@.len() == nkeys,
                forall|x: int| 0 <= x < nkeys ==> (#[trigger] seen@[x] <==> exists|j: int| 0 <= j < i && sigs[j].key_index == x),
                valid == valid_signature_count(keys, *commitment, sigs, i as int),
                valid < self.threshold,
            decreases sigs.len() - i,
        {
            let gs = &signatures[i];
            let idx = gs.key_index as usize;
            let ghost prev_seen = seen@;
            if idx >= nkeys {
                proof {
                    assert(!signature_counts(keys, *commitment, sigs, i as int));
                    assert forall|x: int| 0 <= x < nkeys implies (#[trigger] seen@[x] <==> exists|j: int| 0 <= j < i + 1 && sigs[j].key_index == x) by {
                        if exists|j: int| 0 <= j < i + 1 && sigs[j].key_index == x {
                            let j = choose|j: int| 0 <= j < i + 1 && sigs[j].key_index == x;
                            assert(j != i);
                        }
                    }
                }
                i = i + 1;
            } else if seen[idx] {
                proof {
                    let j = choose|j: int| 0 <= j < i && sigs[j].key_index == idx;
                    assert(sigs[j].key_index == sigs[i as int].key_index);
                    assert(!signature_counts(keys, *commitment, sigs, i as int));
                    assert forall|x: int| 0 <= x < nkeys implies (#[trigger] seen@[x] <==> exists|j: int| 0 <= j < i + 1 && sigs[j].key_index == x) by {
                        if exists|j: int| 0 <= j < i + 1 && sigs[j].key_index == x {
                            let j2 = choose|j2: int| 0 <= j2 < i + 1 && sigs[j2].key_index == x;
                            if j2 == i {
                                assert(sigs[j].key_index == x);
                            }
                        }
                    }
                }
                i = i + 1;
            } else {
                seen.set(idx, true);
                let ok = ed25519_verify(&self.keys[idx], commitment, gs.signature.as_slice());
                proof {
                    assert forall|j: int| 0 <= j < i implies #[trigger] sigs[j].key_index != sigs[i as int].key_index by {
                        if sigs[j].key_index == sigs[i as int].key_index {
                            assert(prev_seen[idx as int]);
                        }
                    }
                    assert(signature_counts(keys, *commitment, sigs, i as int) == ok);
                    assert forall|x: int| 0 <= x < nkeys implies (#[trigger] seen@[x] <==> exists|j: int| 0 <= j < i + 1 && sigs[j].key_index == x) by {
                        if x == idx {
                            assert(sigs[i as int].key_index == x);
                        } else {
                            assert(seen@[x] == prev_seen[x]);
                            if exists|j: int| 0 <= j < i + 1 && sigs[j].key_index == x {
                                let j = choose|j: int| 0 <= j < i + 1 && sigs[j].key_index == x;
                                assert(j != i);
                            }
                        }
                    }
                }
                if ok {
                    valid = valid + 1;
                    if valid >= self.threshold {
                        proof {
                            lemma_count_monotone(keys, *commitment, sigs, i + 1, sigs.len() as int);
                        }
                        return true;
                    }
                }
                i = i + 1;
            }
        }
        false
    }

    /// The configured quorum threshold.
    pub fn threshold(&self) -> (r: usize)
        ensures
            r == self.threshold_spec(),
    {
        self.threshold
    }
}

/// The count of valid signatures never decreases along the list.
pub proof fn lemma_count_monotone(
    keys: Seq<[u8; 32]>,
    commitment: [u8; 32],
    sigs: Seq<GovernanceSignature>,
    a: int,
    b: int,
)
    requires
        a <= b,
    ensures
        valid_signature_count(keys, commitment, sigs, a) <= valid_signature_count(
            keys,
            commitment,
            sigs,
            b,
        ),
    decreases b - a,
{
    if a < b {
        lemma_count_monotone(keys, commitment, sigs, a, b - 1);
    }
}

/// The undo records of one validator, in log order.
pub open spec fn records_of(log: Seq<UndoRecordView>, v: NodeId) -> Seq<UndoRecordView> {
    log.filter(|x: UndoRecordView| x.validator_id == v)
}

/// Whether the rate limit allows an undo for `v` at `round`.
pub open spec fn undo_allowed(m: SlashingModel, v: NodeId, round: u64, interval: u64) -> bool {
    m.last_undo.contains_key(v) ==> sat_sub(round, m.last_undo[v]) >= interval
}

/// Applies governance-authorized undos with a per-validator rate limit.
/// The rate-limit rounds and the audit log live in the slashing engine's
/// state; the manager holds only the authority and the interval.
pub struct SlashingUndoManager {
    governance: Option<GovernanceAuthority>,
    min_undo_interval: u64,
}

impl SlashingUndoManager {
    /// The configured authority, if any.
    pub closed spec fn authority(self) -> Option<GovernanceAuthority> {
        self.governance
    }

    /// The minimum interval between undos of one validator.
    pub closed spec fn interval(self) -> u64 {
        self.min_undo_interval
    }

    /// A manager with no governance authority: every undo is refused.
    pub fn new() -> (r: SlashingUndoManager)
        ensures
            r.authority().is_none(),
            r.interval() == DEFAULT_MIN_UNDO_INTERVAL,
    {
        SlashingUndoManager { governance: None, min_undo_interval: DEFAULT_MIN_UNDO_INTERVAL }
    }

    /// A manager authorized by `governance`, with the default interval.
    pub fn with_governance(governance: GovernanceAuthority) -> (r: SlashingUndoManager)
        ensures
            r.authority() == Some(governance),
            r.interval() == DEFAULT_MIN_UNDO_INTERVAL,
    {
        SlashingUndoManager { governance: Some(governance), min_undo_interval: DEFAULT_MIN_UNDO_INTERVAL }
    }

    /// A manager authorized by `governance`, with a custom interval.
    pub fn with_governance_and_interval(governance: GovernanceAuthority, min_undo_interval: u64) -> (r: SlashingUndoManager)
        ensures
            r.authority() == Some(governance),
            r.interval() == min_undo_interval,
    {
        SlashingUndoManager { governance: Some(governance), min_undo_interval }
    }

    /// Set or replace the governance authority.
    pub fn set_governance(&mut self, governance: GovernanceAuthority)
        ensures
            final(self).authority() == Some(governance),
            final(self).interval() == old(self).interval(),
    {
        self.governance = Some(governance);
    }

    /// Apply a governance-authorized undo. In order: refused as
    /// `Unauthorized` without an authority or a signing quorum over the
    /// request's commitment; refused as `RateLimitExceeded` when the previous
    /// undo of the validator is fewer than the interval rounds back; refused
    /// as `UndoFailed` when the validator has no offense to undo. Otherwise
    /// the engine removes the points of the last offense, stamps the round
    /// and logs the returned record. A refusal changes nothing.
    pub fn apply_undo(
        &mut self,
        slashing: &mut SlashingEngine,
        request: SlashingUndoRequest,
        current_round: u64,
    ) -> (r: Result<SlashingUndoRecord, SlashingUndoError>)
        requires
            old(slashing).wf(),
        ensures
            final(slashing).wf(),
            *final(self) == *old(self),
            old(self).authority().is_none() ==> (r matches Err(e) && e is Unauthorized),
            (old(self).authority() matches Some(a) && !a.accepts(request_commitment(request), request.governance_signatures@))
                ==> (r matches Err(e) && e is Unauthorized),
            (old(self).authority() matches Some(a) && a.accepts(request_commitment(request), request.governance_signatures@)) ==> {
                let m = old(slashing)@;
                let v = request.validator_id;
                &&& !undo_allowed(m, v, current_round, old(self).interval()) ==> r == Err::<SlashingUndoRecord, SlashingUndoError>(
                    SlashingUndoError::RateLimitExceeded {
                        validator_prefix: id_prefix(v),
                        last_round: m.last_undo[v],
                        current_round,
                        min_interval: old(self).interval(),
                    },
                )
                &&& (undo_allowed(m, v, current_round, old(self).interval()) && seq_at(m.history, v).len() == 0)
                    ==> r == Err::<SlashingUndoRecord, SlashingUndoError>(
                    SlashingUndoError::UndoFailed(SlashingStoreError::UndoNoOffenseHistory(id_prefix(v))),
                )
                &&& (undo_allowed(m, v, current_round, old(self).interval()) && seq_at(m.history, v).len() > 0)
                    ==> (r matches Ok(rec) && rec@ == undo_record_view(
                    m,
                    v,
                    request.proposal_hash,
                    request.slashed_round,
                    request.undo_round,
                    rec.timestamp,
                    request.reason@,
                ) && final(slashing)@ == after_recorded_undo(m, v, current_round, rec@))
            },
            r is Err ==> final(slashing)@ == old(slashing)@,
    {
        let authority = match &self.governance {
            Some(a) => a,
            None => {
                return Err(
                    SlashingUndoError::Unauthorized(
                        String::from_str("no governance authority configured; undo refused"),
                    ),
                );
            },
        };
        let commitment = request.authorization_commitment();
        if !authority.verify(&commitment, request.governance_signatures.as_slice()) {
            return Err(
                SlashingUndoError::Unauthorized(
                    String::from_str("insufficient valid governance signatures"),
                ),
            );
        }
        match slashing.last_undo_round(&request.validator_id) {
            Some(last_round) => {
                if current_round.saturating_sub(last_round) < self.min_undo_interval {
                    return Err(
                        SlashingUndoError::RateLimitExceeded {
                            validator_prefix: prefix4(&request.validator_id),
                            last_round,
                            current_round,
                            min_interval: self.min_undo_interval,
                        },
                    );
                }
            },
            None => {},
        }
        let timestamp = current_timestamp();
        let validator_id = request.validator_id;
        match slashing.record_undo(
            &validator_id,
            current_round,
            request.slashed_round,
            request.undo_round,
            request.proposal_hash,
            request.reason,
            timestamp,
        ) {
            Ok(record) => Ok(record),
            Err(e) => Err(SlashingUndoError::from(e)),
        }
    }

    /// The full audit log of applied undos, oldest first.
    pub fn audit_log(&self, slashing: &SlashingEngine) -> (r: Vec<SlashingUndoRecord>)
        requires
            slashing.wf(),
        ensures
            r@.map_values(|x: SlashingUndoRecord| x@) == slashing@.undo_log,
    {
        slashing.undo_audit_log()
    }

    /// The audit records of one validator, oldest first.
    pub fn history(&self, slashing: &SlashingEngine, validator_id: &NodeId) -> (r: Vec<SlashingUndoRecord>)
        requires
            slashing.wf(),
        ensures
            r@.map_values(|x: SlashingUndoRecord| x@) == records_of(slashing@.undo_log, *validator_id),
    {
        let log = slashing.undo_audit_log();
        let ghost views = log@.map_values(|x: SlashingUndoRecord| x@);
        let mut out: Vec<SlashingUndoRecord> = Vec::new();
        let n = log.len();
        let mut i: usize = 0;
        while i < n
            invariant
                n == log@.len(),
                views == log@.map_values(|x: SlashingUndoRecord| x@),
                i <= n,
                out@.map_values(|x: SlashingUndoRecord| x@) == records_of(views.take(i as int), *validator_id),
            decreases n - i,
        {
            proof {
                assert(views.take(i + 1).drop_last() =~= views.take(i as int));
                assert(views.take(i + 1).last() == log@[i as int]@);
                reveal(Seq::filter);
            }
            if id_eq(&log[i].validator_id, validator_id) {
                let rec = log[i].duplicate();
                out.push(rec);
                proof {
                    assert(out@.map_values(|x: SlashingUndoRecord| x@) =~= records_of(views.take(i + 1), *validator_id));
                }
            } else {
                proof {
                    assert(out@.map_values(|x: SlashingUndoRecord| x@) =~= records_of(views.take(i + 1), *validator_id));
                }
            }
            i = i + 1;
        }
        proof {
            assert(views.take(n as int) =~= views);
        }
        out
    }

    /// Whether the rate limit allows an undo for the validator now.
    pub fn can_undo(&self, slashing: &SlashingEngine, validator_id: &NodeId, current_round: u64) -> (r: bool)
        requires
            slashing.wf(),
        ensures
            r == undo_allowed(slashing@, *validator_id, current_round, self.interval()),
    {
        match slashing.last_undo_round(validator_id) {
            Some(last_round) => current_round.saturating_sub(last_round) >= self.min_undo_interval,
            None => true,
        }
    }

    /// The number of applied undos.
    pub fn total_undos(&self, slashing: &SlashingEngine) -> (r: usize)
        requires
            slashing.wf(),
        ensures
            r == slashing@.undo_log.len(),
    {
        let log = slashing.undo_audit_log();
        log.len()
    }
}

impl Default for SlashingUndoManager {
    fn default() -> (r: SlashingUndoManager)
        ensures
            r.authority().is_none(),
            r.interval() == DEFAULT_MIN_UNDO_INTERVAL,
    {
        SlashingUndoManager::new()
    }
}

} // verus!
