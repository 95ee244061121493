//! Consensus bookkeeping split into shards by event id.
//!
//! The per-event data (consensus state, round, fame) is kept in 256 shards,
//! chosen by the first byte of the event id, so that updates of different
//! shards are independent; the data keyed otherwise (witnesses per round,
//! per-node information, the first event of each creator and sequence, the
//! committed count) is kept once. Callers that share the state between
//! threads put it behind a lock.
use vstd::prelude::*;
use crate::ids::EventId;
use crate::ids::NodeId;
use crate::ids::id_eq;
use crate::vec_map::VecMap;
use crate::consensus::ConsensusState;
use crate::consensus::NodeConsensusInfo;
use crate::consensus::DEFAULT_COMMITTED_ROUND_THRESHOLD;
use crate::consensus::fresh_info;

verus! {

/// Number of shards: one per value of an id's first byte.
pub const NUM_SHARDS: usize = 256;

/// The per-event data of one shard.
pub struct ConsensusShard {
    event_states: VecMap<EventId, ConsensusState>,
    event_rounds: VecMap<EventId, u64>,
    fame_status: VecMap<EventId, bool>,
}

impl ConsensusShard {
    fn new() -> (r: Self)
        ensures
            r.event_states.wf(),
            r.event_rounds.wf(),
            r.fame_status.wf(),
            r.event_states@ == Map::<EventId, ConsensusState>::empty(),
            r.event_rounds@ == Map::<EventId, u64>::empty(),
            r.fame_status@ == Map::<EventId, bool>::empty(),
    {
        ConsensusShard { event_states: VecMap::new(), event_rounds: VecMap::new(), fame_status: VecMap::new() }
    }

    spec fn wf_for(&self, i: int) -> bool {
        &&& self.event_states.wf()
        &&& self.event_rounds.wf()
        &&& self.fame_status.wf()
        &&& forall|id: EventId| #[trigger] self.event_states@.contains_key(id) ==> id[0] == i
        &&& forall|id: EventId| #[trigger] self.event_rounds@.contains_key(id) ==> id[0] == i
        &&& forall|id: EventId| #[trigger] self.fame_status@.contains_key(id) ==> id[0] == i
    }
}

/// Figures about the sharded state.
#[derive(Debug, Clone)]
pub struct ShardedConsensusStats {
    /// Number of events with a consensus state.
    pub total_tracked: usize,
    /// Number of committed events counted.
    pub committed: u64,
    /// Number of events with a consensus state in each shard.
    pub shard_loads: Vec<usize>,
}

/// The events a cleanup removes: committed, with a round below `cutoff`.
pub open spec fn stale_committed(
    states: Map<EventId, ConsensusState>,
    rounds: Map<EventId, u64>,
    cutoff: u64,
) -> Set<EventId> {
    Set::new(
        |id: EventId|
            states.contains_key(id) && states[id] == ConsensusState::Committed && rounds.contains_key(id)
                && rounds[id] < cutoff,
    )
}

/// The ids of shard `i`.
pub open spec fn in_shard(s: Set<EventId>, i: int) -> Set<EventId> {
    s.filter(|id: EventId| id[0] == i)
}

/// The ids of the shards below `i`.
pub open spec fn below_shard(s: Set<EventId>, i: int) -> Set<EventId> {
    s.filter(|id: EventId| id[0] < i)
}

/// The sum of a sequence of counts.
pub open spec fn loads_sum(s: Seq<usize>) -> int
    decreases s.len(),
{
    if s.len() == 0 {
        0
    } else {
        loads_sum(s.drop_last()) + s.last()
    }
}

/// Consensus bookkeeping in 256 shards plus the data kept once.
pub struct ShardedConsensusState {
    shards: Vec<ConsensusShard>,
    round_witnesses: VecMap<u64, Vec<EventId>>,
    node_info: VecMap<NodeId, NodeConsensusInfo>,
    first_event_for_sequence: VecMap<(NodeId, u64), EventId>,
    committed_count: u64,
}

proof fn lemma_below_shard_step(s: Set<EventId>, i: int)
    requires
        s.finite(),
    ensures
        below_shard(s, i + 1) == below_shard(s, i) + in_shard(s, i),
        below_shard(s, i).disjoint(in_shard(s, i)),
        below_shard(s, i).finite(),
        in_shard(s, i).finite(),
{
    assert(below_shard(s, i + 1) =~= below_shard(s, i) + in_shard(s, i));
    vstd::set_lib::lemma_set_subset_finite(s, below_shard(s, i));
    vstd::set_lib::lemma_set_subset_finite(s, in_shard(s, i));
}

/// `r` is the highest current round of the nodes in `infos` (0 when none).
pub open spec fn is_current_round(infos: Map<NodeId, NodeConsensusInfo>, r: u64) -> bool {
    &&& forall|n: NodeId| #[trigger] infos.contains_key(n) ==> infos[n].current_round <= r
    &&& r == 0 || exists|n: NodeId| #[trigger] infos.contains_key(n) && infos[n].current_round == r
}

/// The first-seen table after recording `id` for `key`: unchanged when the
/// key already has an entry.
pub open spec fn record_first(m: Map<(NodeId, u64), EventId>, key: (NodeId, u64), id: EventId) -> Map<
    (NodeId, u64),
    EventId,
> {
    if m.contains_key(key) {
        m
    } else {
        m.insert(key, id)
    }
}

/// First writer wins: after two recordings for the same key, the key holds
/// the entry it had before, or else the first recorded id.
pub proof fn lemma_first_writer_wins(m: Map<(NodeId, u64), EventId>, key: (NodeId, u64), a: EventId, b: EventId)
    ensures
        record_first(record_first(m, key, a), key, b).contains_key(key),
        record_first(record_first(m, key, a), key, b)[key] == (if m.contains_key(key) {
            m[key]
        } else {
            a
        }),
{
}

impl ShardedConsensusState {
    /// The consensus state of each tracked event.
    pub closed spec fn states(&self) -> Map<EventId, ConsensusState> {
        Map::new(
            |id: EventId| self.shards@[id[0] as int].event_states@.contains_key(id),
            |id: EventId| self.shards@[id[0] as int].event_states@[id],
        )
    }

    /// The round of each event with a round.
    pub closed spec fn rounds(&self) -> Map<EventId, u64> {
        Map::new(
            |id: EventId| self.shards@[id[0] as int].event_rounds@.contains_key(id),
            |id: EventId| self.shards@[id[0] as int].event_rounds@[id],
        )
    }

    /// The fame of each witness with a decided fame.
    pub closed spec fn fame(&self) -> Map<EventId, bool> {
        Map::new(
            |id: EventId| self.shards@[id[0] as int].fame_status@.contains_key(id),
            |id: EventId| self.shards@[id[0] as int].fame_status@[id],
        )
    }

    /// The witnesses recorded per round.
    pub closed spec fn witnesses(&self) -> Map<u64, Set<EventId>> {
        self.round_witnesses@.map_values(|v: Vec<EventId>| v@.to_set())
    }

    /// Per-node information.
    pub closed spec fn infos(&self) -> Map<NodeId, NodeConsensusInfo> {
        self.node_info@
    }

    /// The first event seen for each (creator, sequence).
    pub closed spec fn first_seen(&self) -> Map<(NodeId, u64), EventId> {
        self.first_event_for_sequence@
    }

    /// The committed count.
    pub closed spec fn committed(&self) -> u64 {
        self.committed_count
    }

    /// Each shard holds only ids of its first byte, and the maps are consistent.
    pub closed spec fn wf(&self) -> bool {
        &&& self.shards@.len() == NUM_SHARDS
        &&& forall|i: int| 0 <= i < NUM_SHARDS ==> #[trigger] self.shards@[i].wf_for(i)
        &&& self.round_witnesses.wf()
        &&& forall|r: u64| #[trigger]
            self.round_witnesses@.contains_key(r) ==> self.round_witnesses@[r]@.no_duplicates()
        &&& self.node_info.wf()
        &&& self.first_event_for_sequence.wf()
    }

    /// An empty state of 256 shards.
    pub fn new() -> (r: Self)
        ensures
            r.wf(),
            r.states() == Map::<EventId, ConsensusState>::empty(),
            r.rounds() == Map::<EventId, u64>::empty(),
            r.fame() == Map::<EventId, bool>::empty(),
            r.witnesses() == Map::<u64, Set<EventId>>::empty(),
            r.infos() == Map::<NodeId, NodeConsensusInfo>::empty(),
            r.first_seen() == Map::<(NodeId, u64), EventId>::empty(),
            r.committed() == 0,
    {
        let mut shards: Vec<ConsensusShard> = Vec::new();
        let mut i: usize = 0;
        while i < NUM_SHARDS
            invariant
                i <= NUM_SHARDS,
                shards@.len() == i,
                forall|j: int| 0 <= j < i ==> #[trigger] shards@[j].wf_for(j),
                forall|j: int| 0 <= j < i ==> (#[trigger] shards@[j]).event_states@ == Map::<EventId, ConsensusState>::empty()
                    && shards@[j].event_rounds@ == Map::<EventId, u64>::empty() && shards@[j].fame_status@
                    == Map::<EventId, bool>::empty(),
            decreases NUM_SHARDS - i,
        {
            shards.push(ConsensusShard::new());
            i = i + 1;
        }
        let r = ShardedConsensusState {
            shards,
            round_witnesses: VecMap::new(),
            node_info: VecMap::new(),
            first_event_for_sequence: VecMap::new(),
            committed_count: 0,
        };
        proof {
            assert(r.states() =~= Map::<EventId, ConsensusState>::empty());
            assert(r.rounds() =~= Map::<EventId, u64>::empty());
            assert(r.fame() =~= Map::<EventId, bool>::empty());
            assert(r.witnesses() =~= Map::<u64, Set<EventId>>::empty());
        }
        r
    }

    /// The shard of an event: the first byte of its id.
    pub fn shard_index(event_id: &EventId) -> (r: usize)
        ensures
            r == event_id[0],
            r < NUM_SHARDS,
    {
        event_id[0] as usize
    }

    /// The shard of `event_id`, taken out of the state (an empty shard is
    /// left in its place).
    fn take_shard(&mut self, event_id: &EventId) -> (r: ConsensusShard)
        requires
            old(self).wf(),
        ensures
            r.wf_for(event_id[0] as int),
            r == old(self).shards@[event_id[0] as int],
            final(self).shards@ == old(self).shards@.update(event_id[0] as int, final(self).shards@[event_id[0] as int]),
            final(self).shards@[event_id[0] as int].wf_for(event_id[0] as int),
            final(self).round_witnesses == old(self).round_witnesses,
            final(self).node_info == old(self).node_info,
            final(self).first_event_for_sequence == old(self).first_event_for_sequence,
            final(self).committed_count == old(self).committed_count,
    {
        let idx = Self::shard_index(event_id);
        let mut shard = ConsensusShard::new();
        std::mem::swap(&mut shard, &mut self.shards[idx]);
        proof {
            assert(self.shards@[idx as int].wf_for(idx as int));
        }
        shard
    }

    /// Record the consensus state of `event_id`, replacing any earlier one.
    pub fn insert_event_state(&mut self, event_id: EventId, state: ConsensusState)
        requires
            old(self).wf(),
        ensures
            final(self).wf(),
            final(self).states() == old(self).states().insert(event_id, state),
            final(self).rounds() == old(self).rounds(),
            final(self).fame() == old(self).fame(),
            final(self).witnesses() == old(self).witnesses(),
            final(self).infos() == old(self).infos(),
            final(self).first_seen() == old(self).first_seen(),
            final(self).committed() == old(self).committed(),
    {
        let idx = Self::shard_index(&event_id);
        let mut shard = self.take_shard(&event_id);
        shard.event_states.insert(event_id, state);
        self.shards.set(idx, shard);
        proof {
            assert(self.states() =~= old(self).states().insert(event_id, state));
            assert(self.rounds() =~= old(self).rounds());
            assert(self.fame() =~= old(self).fame());
            assert forall|i: int| 0 <= i < NUM_SHARDS implies #[trigger] self.shards@[i].wf_for(i) by {
                if i != idx {
                    assert(self.shards@[i] == old(self).shards@[i]);
                }
            }
        }
    }

    /// Record the consensus state of `event_id` unless it has one; returns
    /// whether it was recorded.
    pub fn insert_event_state_if_absent(&mut self, event_id: EventId, state: ConsensusState) -> (r: bool)
        requires
            old(self).wf(),
        ensures
            final(self).wf(),
            r == !old(self).states().contains_key(event_id),
            r ==> final(self).states() == old(self).states().insert(event_id, state),
            !r ==> final(self).states() == old(self).states(),
            final(self).rounds() == old(self).rounds(),
            final(self).fame() == old(self).fame(),
            final(self).witnesses() == old(self).witnesses(),
            final(self).infos() == old(self).infos(),
            final(self).first_seen() == old(self).first_seen(),
            final(self).committed() == old(self).committed(),
    {
        if self.contains_event(&event_id) {
            return false;
        }
        self.insert_event_state(event_id, state);
        true
    }

    /// The consensus state of `event_id`.
    pub fn get_event_state(&self, event_id: &EventId) -> (r: Option<ConsensusState>)
        requires
            self.wf(),
        ensures
            r.is_some() == self.states().contains_key(*event_id),
            r matches Some(s) ==> s == self.states()[*event_id],
    {
        let idx = Self::shard_index(event_id);
        proof {
            assert(self.shards@[idx as int].wf_for(idx as int));
        }
        match self.shards[idx].event_states.get(event_id) {
            Some(s) => Some(*s),
            None => None,
        }
    }

    /// Record the round of `event_id`, replacing any earlier one.
    pub fn insert_event_round(&mut self, event_id: EventId, round: u64)
        requires
            old(self).wf(),
        ensures
            final(self).wf(),
            final(self).rounds() == old(self).rounds().insert(event_id, round),
            final(self).states() == old(self).states(),
            final(self).fame() == old(self).fame(),
            final(self).witnesses() == old(self).witnesses(),
            final(self).infos() == old(self).infos(),
            final(self).first_seen() == old(self).first_seen(),
            final(self).committed() == old(self).committed(),
    {
        let idx = Self::shard_index(&event_id);
        let mut shard = self.take_shard(&event_id);
        shard.event_rounds.insert(event_id, round);
        self.shards.set(idx, shard);
        proof {
            assert(self.rounds() =~= old(self).rounds().insert(event_id, round));
            assert(self.states() =~= old(self).states());
            assert(self.fame() =~= old(self).fame());
            assert forall|i: int| 0 <= i < NUM_SHARDS implies #[trigger] self.shards@[i].wf_for(i) by {
                if i != idx {
                    assert(self.shards@[i] == old(self).shards@[i]);
                }
            }
        }
    }

    /// The round of `event_id`.
    pub fn get_event_round(&self, event_id: &EventId) -> (r: Option<u64>)
        requires
            self.wf(),
        ensures
            r.is_some() == self.rounds().contains_key(*event_id),
            r matches Some(x) ==> x == self.rounds()[*event_id],
    {
        let idx = Self::shard_index(event_id);
        proof {
            assert(self.shards@[idx as int].wf_for(idx as int));
        }
        match self.shards[idx].event_rounds.get(event_id) {
            Some(x) => Some(*x),
            None => None,
        }
    }

    /// Record the fame of the witness `event_id`, replacing any earlier one.
    pub fn insert_fame_status(&mut self, event_id: EventId, famous: bool)
        requires
            old(self).wf(),
        ensures
            final(self).wf(),
            final(self).fame() == old(self).fame().insert(event_id, famous),
            final(self).states() == old(self).states(),
            final(self).rounds() == old(self).rounds(),
            final(self).witnesses() == old(self).witnesses(),
            final(self).infos() == old(self).infos(),
            final(self).first_seen() == old(self).first_seen(),
            final(self).committed() == old(self).committed(),
    {
        let idx = Self::shard_index(&event_id);
        let mut shard = self.take_shard(&event_id);
        shard.fame_status.insert(event_id, famous);
        self.shards.set(idx, shard);
        proof {
            assert(self.fame() =~= old(self).fame().insert(event_id, famous));
            assert(self.states() =~= old(self).states());
            assert(self.rounds() =~= old(self).rounds());
            assert forall|i: int| 0 <= i < NUM_SHARDS implies #[trigger] self.shards@[i].wf_for(i) by {
                if i != idx {
                    assert(self.shards@[i] == old(self).shards@[i]);
                }
            }
        }
    }

    /// The fame of the witness `event_id`.
    pub fn get_fame_status(&self, event_id: &EventId) -> (r: Option<bool>)
        requires
            self.wf(),
        ensures
            r.is_some() == self.fame().contains_key(*event_id),
            r matches Some(x) ==> x == self.fame()[*event_id],
    {
        let idx = Self::shard_index(event_id);
        proof {
            assert(self.shards@[idx as int].wf_for(idx as int));
        }
        match self.shards[idx].fame_status.get(event_id) {
            Some(x) => Some(*x),
            None => None,
        }
    }

    /// Whether `event_id` has a consensus state.
    pub fn contains_event(&self, event_id: &EventId) -> (r: bool)
        requires
            self.wf(),
        ensures
            r == self.states().contains_key(*event_id),
    {
        self.get_event_state(event_id).is_some()
    }

    /// Record `event_id` as a witness of `round`.
    pub fn record_witness(&mut self, round: u64, event_id: EventId)
        requires
            old(self).wf(),
        ensures
            final(self).wf(),
            final(self).witnesses() == old(self).witnesses().insert(
                round,
                if old(self).witnesses().contains_key(round) {
                    old(self).witnesses()[round]
                } else {
                    Set::empty()
                }.insert(event_id),
            ),
            final(self).states() == old(self).states(),
            final(self).rounds() == old(self).rounds(),
            final(self).fame() == old(self).fame(),
            final(self).infos() == old(self).infos(),
            final(self).first_seen() == old(self).first_seen(),
            final(self).committed() == old(self).committed(),
    {
        let ghost w0 = self.witnesses();
        let mut rw = VecMap::new();
        std::mem::swap(&mut rw, &mut self.round_witnesses);
        let mut v = match rw.remove(&round) {
            Some(v) => v,
            None => Vec::new(),
        };
        let ghost before = v@;
        let ghost base = if w0.contains_key(round) {
            w0[round]
        } else {
            Set::<EventId>::empty()
        };
        proof {
            if !w0.contains_key(round) {
                assert(before.to_set() =~= Set::<EventId>::empty());
            }
            assert(before.to_set() == base);
        }
        let mut present = false;
        let mut i: usize = 0;
        while i < v.len()
            invariant
                i <= v@.len(),
                present == exists|q: int| 0 <= q < i && #[trigger] v@[q] == event_id,
            decreases v@.len() - i,
        {
            if id_eq(&v[i], &event_id) {
                present = true;
            }
            i = i + 1;
        }
        if !present {
            v.push(event_id);
            proof {
                before.lemma_push_to_set_commute(event_id);
                assert forall|a: int, b: int| 0 <= a < b < v@.len() implies v@[a] != v@[b] by {
                    if b == before.len() {
                        assert(before[a] != event_id);
                    }
                }
            }
        } else {
            proof {
                assert(before.to_set().insert(event_id) =~= before.to_set());
            }
        }
        let ghost vv = v@;
        rw.insert(round, v);
        self.round_witnesses = rw;
        proof {
            assert(vv.to_set() == base.insert(event_id));
            assert(self.witnesses() =~= w0.insert(
                round,
                if w0.contains_key(round) {
                    w0[round]
                } else {
                    Set::empty()
                }.insert(event_id),
            ));
        }
    }

    /// The witnesses recorded for `round`, each once.
    pub fn get_witnesses_for_round(&self, round: u64) -> (r: Vec<EventId>)
        requires
            self.wf(),
        ensures
            r@.no_duplicates(),
            r@.to_set() == if self.witnesses().contains_key(round) {
                self.witnesses()[round]
            } else {
                Set::empty()
            },
    {
        match self.round_witnesses.get(&round) {
            Some(v) => {
                let mut out: Vec<EventId> = Vec::new();
                let mut i: usize = 0;
                while i < v.len()
                    invariant
                        i <= v@.len(),
                        out@ == v@.take(i as int),
                    decreases v@.len() - i,
                {
                    out.push(v[i]);
                    i = i + 1;
                    proof {
                        assert(out@ =~= v@.take(i as int));
                    }
                }
                proof {
                    assert(out@ =~= v@);
                }
                out
            },
            None => {
                proof {
                    assert(Seq::<EventId>::empty().to_set() =~= Set::<EventId>::empty());
                }
                Vec::new()
            },
        }
    }

    /// Whether `event_id` is committed.
    pub fn is_committed(&self, event_id: &EventId) -> (r: bool)
        requires
            self.wf(),
        ensures
            r == (self.states().contains_key(*event_id) && self.states()[*event_id]
                == ConsensusState::Committed),
    {
        match self.get_event_state(event_id) {
            Some(ConsensusState::Committed) => true,
            _ => false,
        }
    }

    /// Add `count` to the committed count.
    pub fn increment_committed(&mut self, count: u64)
        requires
            old(self).wf(),
            old(self).committed() + count <= u64::MAX,
        ensures
            final(self).wf(),
            final(self).committed() == old(self).committed() + count,
            final(self).states() == old(self).states(),
            final(self).rounds() == old(self).rounds(),
            final(self).fame() == old(self).fame(),
            final(self).witnesses() == old(self).witnesses(),
            final(self).infos() == old(self).infos(),
            final(self).first_seen() == old(self).first_seen(),
    {
        self.committed_count = self.committed_count + count;
    }

    /// The committed count.
    pub fn committed_count(&self) -> (r: u64)
        ensures
            r == self.committed(),
    {
        self.committed_count
    }

    /// Replace the information of `node_id` (a fresh record when it has
    /// none) by what `f` makes of it.
    pub fn update_node_info<F: FnOnce(NodeConsensusInfo) -> NodeConsensusInfo>(&mut self, node_id: NodeId, f: F)
        requires
            old(self).wf(),
            call_requires(
                f,
                (if old(self).infos().contains_key(node_id) {
                    old(self).infos()[node_id]
                } else {
                    fresh_info()
                },),
            ),
        ensures
            final(self).wf(),
            final(self).infos().dom() == old(self).infos().dom().insert(node_id),
            forall|n: NodeId| n != node_id && #[trigger] old(self).infos().contains_key(n) ==> final(self).infos()[n] == old(self).infos()[n],
            call_ensures(
                f,
                (if old(self).infos().contains_key(node_id) {
                    old(self).infos()[node_id]
                } else {
                    fresh_info()
                },),
                final(self).infos()[node_id],
            ),
            final(self).states() == old(self).states(),
            final(self).rounds() == old(self).rounds(),
            final(self).fame() == old(self).fame(),
            final(self).witnesses() == old(self).witnesses(),
            final(self).first_seen() == old(self).first_seen(),
            final(self).committed() == old(self).committed(),
    {
        let cur = match self.node_info.get(&node_id) {
            Some(i) => *i,
            None => NodeConsensusInfo::default(),
        };
        let next = f(cur);
        self.node_info.insert(node_id, next);
        proof {
            assert(self.infos().dom() =~= old(self).infos().dom().insert(node_id));
        }
    }

    /// The current round of `node_id` (zero when unknown).
    pub fn get_node_round(&self, node_id: &NodeId) -> (r: u64)
        requires
            self.wf(),
        ensures
            r == if self.infos().contains_key(*node_id) {
                self.infos()[*node_id].current_round
            } else {
                0
            },
    {
        match self.node_info.get(node_id) {
            Some(i) => i.current_round,
            None => 0,
        }
    }

    /// Record `event_id` as the first event of `key` unless one is recorded.
    pub fn record_first_sequence(&mut self, key: (NodeId, u64), event_id: EventId)
        requires
            old(self).wf(),
        ensures
            final(self).wf(),
            final(self).first_seen() == record_first(old(self).first_seen(), key, event_id),
            final(self).states() == old(self).states(),
            final(self).rounds() == old(self).rounds(),
            final(self).fame() == old(self).fame(),
            final(self).witnesses() == old(self).witnesses(),
            final(self).infos() == old(self).infos(),
            final(self).committed() == old(self).committed(),
    {
        if !self.first_event_for_sequence.contains_key(&key) {
            self.first_event_for_sequence.insert(key, event_id);
        }
    }

    /// The first event recorded for `key`.
    pub fn get_first_sequence(&self, key: &(NodeId, u64)) -> (r: Option<EventId>)
        requires
            self.wf(),
        ensures
            r.is_some() == self.first_seen().contains_key(*key),
            r matches Some(id) ==> id == self.first_seen()[*key],
    {
        match self.first_event_for_sequence.get(key) {
            Some(id) => Some(*id),
            None => None,
        }
    }

    /// Figures: the number of tracked events (in total and per shard) and
    /// the committed count.
    pub fn stats(&self) -> (r: ShardedConsensusStats)
        requires
            self.wf(),
        ensures
            self.states().len() <= usize::MAX ==> r.total_tracked == self.states().len(),
            r.committed == self.committed(),
            r.shard_loads@.len() == NUM_SHARDS,
            forall|i: int| 0 <= i < NUM_SHARDS ==> #[trigger] r.shard_loads@[i] == in_shard(
                self.states().dom(),
                i,
            ).len(),
    {
        let ghost dom = self.states().dom();
        proof {
            self.lemma_states_finite();
        }
        let mut total: usize = 0;
        let mut loads: Vec<usize> = Vec::new();
        let mut i: usize = 0;
        proof {
            assert(below_shard(dom, 0) =~= Set::<EventId>::empty());
        }
        while i < NUM_SHARDS
            invariant
                self.wf(),
                dom == self.states().dom(),
                dom.finite(),
                i <= NUM_SHARDS,
                loads@.len() == i,
                forall|j: int| 0 <= j < i ==> #[trigger] loads@[j] == in_shard(dom, j).len(),
                below_shard(dom, i as int).len() <= usize::MAX ==> total == below_shard(dom, i as int).len(),
                below_shard(dom, i as int).len() > usize::MAX ==> total == usize::MAX,
            decreases NUM_SHARDS - i,
        {
            proof {
                assert(self.shards@[i as int].wf_for(i as int));
                self.shards@[i as int].event_states.lemma_entries();
                assert(in_shard(dom, i as int) =~= self.shards@[i as int].event_states@.dom());
                lemma_below_shard_step(dom, i as int);
                vstd::set_lib::lemma_set_disjoint_lens(below_shard(dom, i as int), in_shard(dom, i as int));
            }
            let c = self.shards[i].event_states.len();
            total = total.saturating_add(c);
            loads.push(c);
            i = i + 1;
        }
        proof {
            assert(below_shard(dom, NUM_SHARDS as int) =~= dom) by {
                assert forall|id: EventId| dom.contains(id) implies id[0] < NUM_SHARDS by {}
            }
        }
        ShardedConsensusStats { total_tracked: total, committed: self.committed_count, shard_loads: loads }
    }

    /// Remove the committed events whose round is below
    /// `current_round - threshold` from every shard; nothing when
    /// `current_round <= threshold`. Returns the number removed.
    pub fn cleanup_old_committed(&mut self, threshold: u64, current_round: u64) -> (r: usize)
        requires
            old(self).wf(),
        ensures
            final(self).wf(),
            current_round <= threshold ==> r == 0 && final(self).states() == old(self).states()
                && final(self).rounds() == old(self).rounds() && final(self).fame() == old(self).fame(),
            current_round > threshold ==> {
                let stale = stale_committed(
                    old(self).states(),
                    old(self).rounds(),
                    (current_round - threshold) as u64,
                );
                &&& final(self).states() == old(self).states().remove_keys(stale)
                &&& final(self).rounds() == old(self).rounds().remove_keys(stale)
                &&& final(self).fame() == old(self).fame().remove_keys(stale)
                &&& stale.len() <= usize::MAX ==> r == stale.len()
            },
            final(self).witnesses() == old(self).witnesses(),
            final(self).infos() == old(self).infos(),
            final(self).first_seen() == old(self).first_seen(),
            final(self).committed() == old(self).committed(),
    {
        if current_round <= threshold {
            return 0;
        }
        let cutoff = current_round - threshold;
        let ghost st0 = self.states();
        let ghost rd0 = self.rounds();
        let ghost fm0 = self.fame();
        let ghost stale = stale_committed(st0, rd0, cutoff);
        proof {
            self.lemma_states_finite();
            vstd::set_lib::lemma_set_subset_finite(st0.dom(), stale);
            assert(below_shard(stale, 0) =~= Set::<EventId>::empty());
            assert(st0.remove_keys(Set::<EventId>::empty()) =~= st0);
            assert(rd0.remove_keys(Set::<EventId>::empty()) =~= rd0);
            assert(fm0.remove_keys(Set::<EventId>::empty()) =~= fm0);
        }
        let mut total: usize = 0;
        let mut i: usize = 0;
        while i < NUM_SHARDS
            invariant
                self.wf(),
                i <= NUM_SHARDS,
                stale == stale_committed(st0, rd0, cutoff),
                stale.finite(),
                self.states() == st0.remove_keys(below_shard(stale, i as int)),
                self.rounds() == rd0.remove_keys(below_shard(stale, i as int)),
                self.fame() == fm0.remove_keys(below_shard(stale, i as int)),
                forall|j: int| i <= j < NUM_SHARDS ==> #[trigger] self.shards@[j] == old(self).shards@[j],
                below_shard(stale, i as int).len() <= usize::MAX ==> total == below_shard(stale, i as int).len(),
                below_shard(stale, i as int).len() > usize::MAX ==> total == usize::MAX,
                self.round_witnesses == old(self).round_witnesses,
                self.node_info == old(self).node_info,
                self.first_event_for_sequence == old(self).first_event_for_sequence,
                self.committed_count == old(self).committed_count,
                st0 == old(self).states(),
                rd0 == old(self).rounds(),
                fm0 == old(self).fame(),
            decreases NUM_SHARDS - i,
        {
            let ghost pre_states = self.states();
            let ghost pre_rounds = self.rounds();
            let ghost pre_fame = self.fame();
            let ghost pre_shards = self.shards@;
            let mut shard = ConsensusShard::new();
            std::mem::swap(&mut shard, &mut self.shards[i]);
            let ghost sh0 = shard;
            proof {
                assert(sh0 == old(self).shards@[i as int]);
                assert(sh0.wf_for(i as int));
                assert(in_shard(stale, i as int) =~= stale_committed(sh0.event_states@, sh0.event_rounds@, cutoff));
            }
            let removed = Self::cleanup_shard(&mut shard, Ghost(i as int), cutoff);
            let ghost sh1 = shard;
            self.shards.set(i, shard);
            proof {
                lemma_below_shard_step(stale, i as int);
                vstd::set_lib::lemma_set_disjoint_lens(below_shard(stale, i as int), in_shard(stale, i as int));
                let nb = below_shard(stale, i + 1);
                assert forall|j: int| 0 <= j < NUM_SHARDS implies #[trigger] self.shards@[j].wf_for(j) by {
                    if j != i {
                        assert(self.shards@[j] == old(self).shards@[j] || j < i);
                    }
                }
                let t = in_shard(stale, i as int);
                assert forall|id: EventId| id[0] != i implies #[trigger] self.shards@[id[0] as int] == pre_shards[id[0] as int] by {}
                assert(self.shards@[i as int] == sh1);
                assert forall|id: EventId| #[trigger] self.states().contains_key(id) == st0.remove_keys(nb).contains_key(id)
                    && (self.states().contains_key(id) ==> self.states()[id] == st0[id]) by {
                    if id[0] == i {
                        assert(old(self).shards@[id[0] as int] == sh0);
                        assert(nb.contains(id) == stale.contains(id));
                        assert(t.contains(id) == stale.contains(id));
                        if self.states().contains_key(id) {
                            assert(self.states()[id] == sh1.event_states@[id]);
                            assert(sh1.event_states@[id] == sh0.event_states@[id]);
                        }
                    } else {
                        assert(pre_states.contains_key(id) == self.states().contains_key(id));
                        if self.states().contains_key(id) {
                            assert(self.states()[id] == pre_states[id]);
                        }
                        assert(nb.contains(id) == below_shard(stale, i as int).contains(id));
                    }
                }
                assert(self.states() =~= st0.remove_keys(nb));
                assert forall|id: EventId| #[trigger] self.rounds().contains_key(id) == rd0.remove_keys(nb).contains_key(id)
                    && (self.rounds().contains_key(id) ==> self.rounds()[id] == rd0[id]) by {
                    if id[0] == i {
                        assert(old(self).shards@[id[0] as int] == sh0);
                        assert(nb.contains(id) == stale.contains(id));
                        assert(t.contains(id) == stale.contains(id));
                        if self.rounds().contains_key(id) {
                            assert(self.rounds()[id] == sh1.event_rounds@[id]);
                            assert(sh1.event_rounds@[id] == sh0.event_rounds@[id]);
                        }
                    } else {
                        assert(pre_rounds.contains_key(id) == self.rounds().contains_key(id));
                        if self.rounds().contains_key(id) {
                            assert(self.rounds()[id] == pre_rounds[id]);
                        }
                        assert(nb.contains(id) == below_shard(stale, i as int).contains(id));
                    }
                }
                assert(self.rounds() =~= rd0.remove_keys(nb));
                assert forall|id: EventId| #[trigger] self.fame().contains_key(id) == fm0.remove_keys(nb).contains_key(id)
                    && (self.fame().contains_key(id) ==> self.fame()[id] == fm0[id]) by {
                    if id[0] == i {
                        assert(old(self).shards@[id[0] as int] == sh0);
                        assert(nb.contains(id) == stale.contains(id));
                        assert(t.contains(id) == stale.contains(id));
                        if self.fame().contains_key(id) {
                            assert(self.fame()[id] == sh1.fame_status@[id]);
                            assert(sh1.fame_status@[id] == sh0.fame_status@[id]);
                        }
                    } else {
                        assert(pre_fame.contains_key(id) == self.fame().contains_key(id));
                        if self.fame().contains_key(id) {
                            assert(self.fame()[id] == pre_fame[id]);
                        }
                        assert(nb.contains(id) == below_shard(stale, i as int).contains(id));
                    }
                }
                assert(self.fame() =~= fm0.remove_keys(nb));
            }
            total = total.saturating_add(removed);
            i = i + 1;
        }
        proof {
            assert(below_shard(stale, NUM_SHARDS as int) =~= stale);
        }
        total
    }

    /// Remove the committed events of one shard whose round is below `cutoff`.
    fn cleanup_shard(shard: &mut ConsensusShard, Ghost(i): Ghost<int>, cutoff: u64) -> (r: usize)
        requires
            old(shard).wf_for(i),
        ensures
            final(shard).wf_for(i),
            final(shard).event_states@ == old(shard).event_states@.remove_keys(
                stale_committed(old(shard).event_states@, old(shard).event_rounds@, cutoff),
            ),
            final(shard).event_rounds@ == old(shard).event_rounds@.remove_keys(
                stale_committed(old(shard).event_states@, old(shard).event_rounds@, cutoff),
            ),
            final(shard).fame_status@ == old(shard).fame_status@.remove_keys(
                stale_committed(old(shard).event_states@, old(shard).event_rounds@, cutoff),
            ),
            r == stale_committed(old(shard).event_states@, old(shard).event_rounds@, cutoff).len(),
    {
        let ghost stale = stale_committed(shard.event_states@, shard.event_rounds@, cutoff);
        proof {
            shard.event_states.lemma_entries();
        }
        let n = shard.event_states.len();
        let mut to_remove: Vec<EventId> = Vec::new();
        let mut k: usize = 0;
        while k < n
            invariant
                shard.wf_for(i),
                shard == old(shard),
                n == shard.event_states.entry_seq().len(),
                k <= n,
                to_remove@.no_duplicates(),
                forall|q: int| 0 <= q < to_remove@.len() ==> #[trigger] stale.contains(to_remove@[q]),
                forall|j: int| 0 <= j < k && #[trigger] stale.contains(shard.event_states.entry_seq()[j].0) ==> to_remove@.contains(
                    shard.event_states.entry_seq()[j].0,
                ),
                forall|q: int| 0 <= q < to_remove@.len() ==> exists|j: int| 0 <= j < k && shard.event_states.entry_seq()[j].0 == #[trigger] to_remove@[q],
                stale == stale_committed(old(shard).event_states@, old(shard).event_rounds@, cutoff),
            decreases n - k,
        {
            proof {
                shard.event_states.lemma_entries();
            }
            let id = *shard.event_states.key_at(k);
            let st = *shard.event_states.value_at(k);
            let due = match st {
                ConsensusState::Committed => match shard.event_rounds.get(&id) {
                    Some(r) => *r < cutoff,
                    None => false,
                },
                _ => false,
            };
            if due {
                let ghost before = to_remove@;
                proof {
                    assert(!before.contains(id)) by {
                        if before.contains(id) {
                            let q = choose|q: int| 0 <= q < before.len() && before[q] == id;
                            let j = choose|j: int| 0 <= j < k && shard.event_states.entry_seq()[j].0 == #[trigger] before[q];
                            assert(shard.event_states.entry_seq()[j].0 != shard.event_states.entry_seq()[k as int].0);
                        }
                    }
                }
                to_remove.push(id);
                proof {
                    assert forall|a: int, b: int| 0 <= a < to_remove@.len() && 0 <= b < to_remove@.len() && a != b implies to_remove@[a] != to_remove@[b] by {
                        if a == before.len() {
                            assert(before.contains(to_remove@[b]));
                        } else if b == before.len() {
                            assert(before.contains(to_remove@[a]));
                        }
                    }
                    assert forall|q: int| 0 <= q < to_remove@.len() implies exists|j: int| 0 <= j < k + 1 && shard.event_states.entry_seq()[j].0 == #[trigger] to_remove@[q] by {
                        if q < before.len() {
                            let j = choose|j: int| 0 <= j < k && shard.event_states.entry_seq()[j].0 == #[trigger] before[q];
                            assert(to_remove@[q] == before[q]);
                        } else {
                            assert(shard.event_states.entry_seq()[k as int].0 == to_remove@[q]);
                        }
                    }
                    assert forall|j: int| 0 <= j < k + 1 && #[trigger] stale.contains(shard.event_states.entry_seq()[j].0) implies to_remove@.contains(
                        shard.event_states.entry_seq()[j].0,
                    ) by {
                        if j < k {
                            let q = choose|q: int| 0 <= q < before.len() && before[q] == shard.event_states.entry_seq()[j].0;
                            assert(to_remove@[q] == before[q]);
                        } else {
                            assert(to_remove@[to_remove@.len() - 1] == id);
                        }
                    }
                }
            } else {
                proof {
                    assert(!stale.contains(id));
                    assert forall|q: int| 0 <= q < to_remove@.len() implies exists|j: int| 0 <= j < k + 1 && shard.event_states.entry_seq()[j].0 == #[trigger] to_remove@[q] by {
                        let j = choose|j: int| 0 <= j < k && shard.event_states.entry_seq()[j].0 == #[trigger] to_remove@[q];
                    }
                }
            }
            k = k + 1;
        }
        proof {
            shard.event_states.lemma_entries();
            assert(to_remove@.to_set() =~= stale) by {
                assert forall|x: EventId| stale.contains(x) implies to_remove@.to_set().contains(x) by {
                    let j = choose|j: int| 0 <= j < n && #[trigger] shard.event_states.entry_seq()[j].0 == x;
                }
                assert forall|x: EventId| to_remove@.to_set().contains(x) implies stale.contains(x) by {
                    let q = choose|q: int| 0 <= q < to_remove@.len() && to_remove@[q] == x;
                }
            }
            to_remove@.unique_seq_to_set();
        }
        let mut j: usize = 0;
        let ghost s0 = shard.event_states@;
        let ghost r0 = shard.event_rounds@;
        let ghost f0 = shard.fame_status@;
        proof {
            assert(to_remove@.take(0).to_set() =~= Set::<EventId>::empty());
            assert(s0.remove_keys(Set::<EventId>::empty()) =~= s0);
            assert(r0.remove_keys(Set::<EventId>::empty()) =~= r0);
            assert(f0.remove_keys(Set::<EventId>::empty()) =~= f0);
        }
        while j < to_remove.len()
            invariant
                j <= to_remove@.len(),
                shard.event_states.wf(),
                shard.event_rounds.wf(),
                shard.fame_status.wf(),
                shard.event_states@ == s0.remove_keys(to_remove@.take(j as int).to_set()),
                shard.event_rounds@ == r0.remove_keys(to_remove@.take(j as int).to_set()),
                shard.fame_status@ == f0.remove_keys(to_remove@.take(j as int).to_set()),
            decreases to_remove@.len() - j,
        {
            let id = to_remove[j];
            shard.event_states.remove(&id);
            shard.event_rounds.remove(&id);
            shard.fame_status.remove(&id);
            proof {
                assert(to_remove@.take(j + 1) =~= to_remove@.take(j as int).push(id));
                to_remove@.take(j as int).lemma_push_to_set_commute(id);
                let nd = to_remove@.take(j + 1).to_set();
                assert(shard.event_states@ =~= s0.remove_keys(nd));
                assert(shard.event_rounds@ =~= r0.remove_keys(nd));
                assert(shard.fame_status@ =~= f0.remove_keys(nd));
            }
            j = j + 1;
        }
        proof {
            assert(to_remove@.take(to_remove@.len() as int) =~= to_remove@);
        }
        to_remove.len()
    }

    /// The largest current round of any node (zero when none is known).
    pub fn current_round(&self) -> (r: u64)
        requires
            self.wf(),
        ensures
            forall|n: NodeId| #[trigger] self.infos().contains_key(n) ==> self.infos()[n].current_round <= r,
            r == 0 || exists|n: NodeId| #[trigger] self.infos().contains_key(n) && self.infos()[n].current_round == r,
            is_current_round(self.infos(), r),
    {
        proof {
            self.node_info.lemma_entries();
        }
        let n = self.node_info.len();
        let mut best: u64 = 0;
        let mut i: usize = 0;
        while i < n
            invariant
                self.wf(),
                n == self.node_info.entry_seq().len(),
                i <= n,
                forall|j: int| 0 <= j < i ==> (#[trigger] self.node_info.entry_seq()[j]).1.current_round <= best,
                best == 0 || exists|j: int| 0 <= j < i && (#[trigger] self.node_info.entry_seq()[j]).1.current_round == best,
            decreases n - i,
        {
            let r = self.node_info.value_at(i).current_round;
            if r > best {
                best = r;
            }
            i = i + 1;
        }
        proof {
            self.node_info.lemma_entries();
            assert forall|m: NodeId| #[trigger] self.infos().contains_key(m) implies self.infos()[m].current_round <= best by {
                let j = choose|j: int| 0 <= j < n && #[trigger] self.node_info.entry_seq()[j].0 == m;
                assert(self.node_info.entry_seq()[j].1.current_round <= best);
            }
            if best != 0 {
                let j = choose|j: int| 0 <= j < n && (#[trigger] self.node_info.entry_seq()[j]).1.current_round == best;
                let m = self.node_info.entry_seq()[j].0;
                assert(self.infos().contains_key(m));
            }
        }
        best
    }

    /// [`Self::cleanup_old_committed`] with the default threshold and the
    /// current round.
    pub fn cleanup_old_committed_default(&mut self) -> (r: usize)
        requires
            old(self).wf(),
        ensures
            final(self).wf(),
            exists|cur: u64| #[trigger] is_current_round(old(self).infos(), cur) && {
                &&& cur <= DEFAULT_COMMITTED_ROUND_THRESHOLD ==> r == 0 && final(self).states() == old(self).states()
                    && final(self).rounds() == old(self).rounds() && final(self).fame() == old(self).fame()
                &&& cur > DEFAULT_COMMITTED_ROUND_THRESHOLD ==> {
                    let stale = stale_committed(
                        old(self).states(),
                        old(self).rounds(),
                        (cur - DEFAULT_COMMITTED_ROUND_THRESHOLD) as u64,
                    );
                    &&& final(self).states() == old(self).states().remove_keys(stale)
                    &&& final(self).rounds() == old(self).rounds().remove_keys(stale)
                    &&& final(self).fame() == old(self).fame().remove_keys(stale)
                    &&& stale.len() <= usize::MAX ==> r == stale.len()
                }
            },
            final(self).witnesses() == old(self).witnesses(),
            final(self).infos() == old(self).infos(),
            final(self).first_seen() == old(self).first_seen(),
            final(self).committed() == old(self).committed(),
    {
        let current = self.current_round();
        let r = self.cleanup_old_committed(DEFAULT_COMMITTED_ROUND_THRESHOLD, current);
        proof {
            assert(is_current_round(old(self).infos(), current));
        }
        r
    }

    /// The tracked events are finitely many.
    proof fn lemma_states_finite(&self)
        requires
            self.wf(),
        ensures
            self.states().dom().finite(),
    {
        let dom = self.states().dom();
        self.lemma_below_finite(NUM_SHARDS as int);
        assert(below_shard(dom, NUM_SHARDS as int) =~= dom);
    }

    proof fn lemma_below_finite(&self, k: int)
        requires
            self.wf(),
            0 <= k <= NUM_SHARDS,
        ensures
            below_shard(self.states().dom(), k).finite(),
        decreases k,
    {
        let dom = self.states().dom();
        if k == 0 {
            assert(below_shard(dom, 0) =~= Set::<EventId>::empty());
        } else {
            self.lemma_below_finite(k - 1);
            assert(self.shards@[k - 1].wf_for(k - 1));
            self.shards@[k - 1].event_states.lemma_entries();
            assert(below_shard(dom, k) =~= below_shard(dom, k - 1) + self.shards@[k - 1].event_states@.dom());
        }
    }
}

impl Default for ShardedConsensusState {
    fn default() -> (r: Self)
        ensures
            r.wf(),
            r.states() == Map::<EventId, ConsensusState>::empty(),
            r.committed() == 0,
    {
        Self::new()
    }
}

} // verus!
