//! An event pool that frees the slots of old finalized events.
//!
//! The pool stores events in an [`EventPool`], indexes them by creator and
//! sequence in a [`VectorClockIndex`], and records the round in which each
//! event was finalized. Pruning removes the events finalized before a cutoff
//! round, freeing their slots, and keeps a little metadata about each so
//! that a lookup can tell "pruned" from "never existed". At most
//! [`MAX_PRUNED_EVENTS`] metadata entries are kept; the oldest go first.
use vstd::prelude::*;
use crate::ids::EventId;
use crate::ids::NodeId;
use crate::event::Event;
use crate::event::EventView;
use crate::event::EventStatus;
use crate::event_pool::EventPool;
use crate::event_pool::EventPoolError;
use crate::event_pool::with_status;
use crate::vector_clock_index::VectorClockIndex;
use crate::vector_clock_index::resolve_spec;
use crate::vector_clock_index::MAX_SEQUENCE;
use crate::causal_graph::CausalGraphError;
use crate::causal_graph::PrunedEventMetadata;
use crate::causal_graph::short_id;
use crate::causal_graph::message_with_id;
use crate::causal_graph::short_hex;
use crate::vec_map::VecMap;

verus! {

/// Maximum number of pruned-event metadata entries kept.
pub const MAX_PRUNED_EVENTS: usize = 50_000;

/// Figures about a pruning-aware pool.
#[derive(Debug, Clone, Copy, PartialEq, Eq)]
pub struct PoolStats {
    /// Number of occupied slots.
    pub occupied_slots: usize,
    /// Number of slots.
    pub pool_capacity: usize,
    /// Number of free slots.
    pub free_slots: usize,
    /// Number of creators in the index.
    pub indexed_creators: usize,
    /// Number of (creator, sequence) entries in the index.
    pub index_entries: usize,
    /// Number of events counted as finalized.
    pub finalized_count: usize,
    /// Number of pruned events whose metadata is kept.
    pub pruned_count: usize,
    /// Number of times the pool has grown.
    pub growth_count: usize,
}

/// The metadata kept for a pruned event.
pub open spec fn pruned_entry(id: EventId, v: EventView, finalized_round: u64) -> PrunedEventMetadata {
    PrunedEventMetadata {
        event_id: id,
        creator: v.creator,
        sequence: v.sequence,
        depth: 0,
        finalized_round,
    }
}

/// `md2` and `order2` are what `oldest_evicted` leaves of `md` and of
/// `order` followed by the ids of `added`, each once, in some order.
pub open spec fn evicted_after_adding(
    md: Map<EventId, PrunedEventMetadata>,
    order: Seq<EventId>,
    added: Set<EventId>,
    md2: Map<EventId, PrunedEventMetadata>,
    order2: Seq<EventId>,
) -> bool {
    exists|s: Seq<EventId>| s.no_duplicates() && s.to_set() == added && #[trigger] oldest_evicted(md, order + s, md2, order2)
}

/// The metadata `md` without the ids of the first `k` entries of `order`.
pub open spec fn evict_oldest(md: Map<EventId, PrunedEventMetadata>, order: Seq<EventId>, k: int) -> Map<
    EventId,
    PrunedEventMetadata,
> {
    md.remove_keys(order.subrange(0, k).to_set())
}

/// `md2` and `order2` are `md` and `order` after evicting the ids at the
/// front of `order`, one at a time, exactly while more than
/// `MAX_PRUNED_EVENTS` entries remain (or until the order runs out).
pub open spec fn oldest_evicted(
    md: Map<EventId, PrunedEventMetadata>,
    order: Seq<EventId>,
    md2: Map<EventId, PrunedEventMetadata>,
    order2: Seq<EventId>,
) -> bool {
    exists|k: int|
        0 <= k <= order.len() && #[trigger] evict_oldest(md, order, k) == md2 && order2 == order.subrange(
            k,
            order.len() as int,
        ) && (md2.len() <= MAX_PRUNED_EVENTS || k == order.len()) && forall|k2: int|
            0 <= k2 < k ==> #[trigger] evict_oldest(md, order, k2).len() > MAX_PRUNED_EVENTS
}

/// The events finalized before `cutoff`.
pub open spec fn due_for_pruning(rounds: Map<EventId, u64>, cutoff: u64) -> Set<EventId> {
    Set::new(|id: EventId| rounds.contains_key(id) && rounds[id] < cutoff)
}

/// An event pool with finalization rounds and pruning.
pub struct PruningAwarePool {
    pool: EventPool,
    index: VectorClockIndex,
    pruned_metadata: VecMap<EventId, PrunedEventMetadata>,
    pruned_order: Vec<EventId>,
    finalized_rounds: VecMap<EventId, u64>,
    finalized_count: usize,
}

impl PruningAwarePool {
    /// The stored events.
    pub closed spec fn events(&self) -> Map<EventId, EventView> {
        self.pool.events()
    }

    /// The slot of each stored event.
    pub closed spec fn slot_map(&self) -> Map<EventId, usize> {
        self.pool.slot_map()
    }

    /// The finalization round of each finalized event still stored.
    pub closed spec fn finalized(&self) -> Map<EventId, u64> {
        self.finalized_rounds@
    }

    /// The metadata of pruned events.
    pub closed spec fn pruned(&self) -> Map<EventId, PrunedEventMetadata> {
        self.pruned_metadata@
    }

    /// The ids whose metadata was recorded, oldest first.
    pub closed spec fn pruned_order(&self) -> Seq<EventId> {
        self.pruned_order@
    }

    /// The number of events counted as finalized.
    pub closed spec fn finalized_total(&self) -> nat {
        self.finalized_count as nat
    }

    /// The inner pool.
    pub closed spec fn inner(&self) -> EventPool {
        self.pool
    }

    /// The creator and sequence index.
    pub closed spec fn clock_index(&self) -> VectorClockIndex {
        self.index
    }

    /// Every finalized event is stored with status `Finalized`, the count of
    /// finalized events does not exceed their number, and every pruned event
    /// is queued for eviction.
    pub closed spec fn wf(&self) -> bool {
        &&& self.pool.wf()
        &&& self.index.wf()
        &&& self.pruned_metadata.wf()
        &&& self.finalized_rounds.wf()
        &&& forall|id: EventId| #[trigger]
            self.finalized_rounds@.contains_key(id) ==> self.pool.events().contains_key(id)
                && self.pool.events()[id].status == EventStatus::Finalized
        &&& self.finalized_count <= self.finalized_rounds@.len()
        &&& forall|id: EventId| #[trigger]
            self.pruned_metadata@.contains_key(id) ==> self.pruned_order@.contains(id)
    }

    /// Pool law: every event marked finalized is still in the pool, so the
    /// events due for pruning are all in it.
    pub proof fn lemma_finalized_live(&self)
        requires
            self.wf(),
        ensures
            forall|id: EventId| #[trigger] self.finalized().contains_key(id) ==> self.events().contains_key(id),
    {
    }

    /// An empty pool of `initial_capacity` slots that may grow to `max_capacity`.
    pub fn new(initial_capacity: usize, max_capacity: usize) -> (r: Self)
        requires
            initial_capacity > 0,
            initial_capacity <= max_capacity,
        ensures
            r.wf(),
            r.events() == Map::<EventId, EventView>::empty(),
            r.finalized() == Map::<EventId, u64>::empty(),
            r.pruned() == Map::<EventId, PrunedEventMetadata>::empty(),
            r.finalized_total() == 0,
            r.inner().slot_count() == initial_capacity,
            r.inner().max_cap() == max_capacity,
    {
        PruningAwarePool {
            pool: EventPool::new(initial_capacity, max_capacity),
            index: VectorClockIndex::with_capacity(64, initial_capacity),
            pruned_metadata: VecMap::new(),
            pruned_order: Vec::new(),
            finalized_rounds: VecMap::new(),
            finalized_count: 0,
        }
    }

    /// Insert `event` into the pool and index it by creator and sequence.
    ///
    /// Fails as [`EventPool::insert`] does; and with `InvalidEvent` when the
    /// sequence is too large to index, in which case the event is taken out
    /// of the pool again.
    pub fn insert(&mut self, event: Event) -> (r: Result<usize, EventPoolError>)
        requires
            old(self).wf(),
        ensures
            final(self).wf(),
            final(self).finalized() == old(self).finalized(),
            final(self).pruned() == old(self).pruned(),
            final(self).finalized_total() == old(self).finalized_total(),
            old(self).events().contains_key(event.id) ==> (r matches Err(
                EventPoolError::DuplicateEvent(s),
            ) && s@ == short_id(event.id)),
            !old(self).events().contains_key(event.id) && old(self).inner().free_slots().len() == 0
                && old(self).inner().slot_count() >= old(self).inner().max_cap() ==> r == Err::<
                usize,
                EventPoolError,
            >(
                EventPoolError::PoolFull(
                    old(self).inner().slot_count() as usize,
                    old(self).inner().max_cap() as usize,
                ),
            ),
            !old(self).events().contains_key(event.id) && (old(self).inner().free_slots().len() > 0
                || old(self).inner().slot_count() < old(self).inner().max_cap()) ==> if event.sequence
                <= MAX_SEQUENCE {
                r is Ok
            } else {
                r matches Err(EventPoolError::InvalidEvent(_))
            },
            r is Ok ==> final(self).events() == old(self).events().insert(event.id, event@)
                && final(self).slot_map() == old(self).slot_map().insert(event.id, r->Ok_0)
                && resolve_spec(
                final(self).clock_index().forward(),
                final(self).clock_index().slots(),
                event.creator,
                event.sequence,
            ) == Some((event.id, r->Ok_0)),
            r is Err ==> final(self).events() == old(self).events(),
    {
        let event_id = event.id;
        let creator = event.creator;
        let sequence = event.sequence;
        let ghost ev = event@;
        let slot = match self.pool.insert(event) {
            Ok(s) => s,
            Err(e) => {
                return Err(e);
            },
        };
        proof {
            self.pool.lemma_occupancy();
        }
        match self.index.index_event(&creator, sequence, slot, event_id) {
            Ok(()) => {
                proof {
                    assert forall|id: EventId| #[trigger] self.finalized_rounds@.contains_key(id) implies self.pool.events().contains_key(id)
                        && self.pool.events()[id].status == EventStatus::Finalized by {
                        assert(id != event_id);
                    }
                }
                Ok(slot)
            },
            Err(_) => {
                self.pool.remove(&event_id);
                proof {
                    assert(self.pool.events() =~= old(self).pool.events());
                }
                Err(EventPoolError::InvalidEvent("indexing failed: sequence number exceeds maximum".to_owned()))
            },
        }
    }

    /// The stored event `event_id`; fails with `EventPruned` when it was
    /// pruned and with `InvalidEvent` when it was never stored.
    pub fn get(&self, event_id: &EventId) -> (r: Result<&Event, CausalGraphError>)
        requires
            self.wf(),
        ensures
            self.events().contains_key(*event_id) ==> (r matches Ok(e) && e@ == self.events()[*event_id]),
            !self.events().contains_key(*event_id) && self.pruned().contains_key(*event_id) ==> (r matches Err(
                CausalGraphError::EventPruned(s),
            ) && s@ == short_id(*event_id)),
            !self.events().contains_key(*event_id) && !self.pruned().contains_key(*event_id) ==> (r matches Err(
                CausalGraphError::InvalidEvent(s),
            ) && s@ == "event not found: "@ + short_id(*event_id)),
    {
        match self.pool.get(event_id) {
            Some(e) => Ok(e),
            None => {
                if self.pruned_metadata.contains_key(event_id) {
                    Err(CausalGraphError::EventPruned(short_hex(event_id)))
                } else {
                    Err(CausalGraphError::InvalidEvent(message_with_id("event not found: ", event_id)))
                }
            },
        }
    }

    /// The stored event `event_id`, if any.
    pub fn get_opt(&self, event_id: &EventId) -> (r: Option<&Event>)
        requires
            self.wf(),
        ensures
            r.is_some() == self.events().contains_key(*event_id),
            r matches Some(e) ==> e@ == self.events()[*event_id],
    {
        self.pool.get(event_id)
    }

    /// The stored event indexed for `(creator, sequence)`.
    pub fn resolve_parent(&self, creator: &NodeId, sequence: u64) -> (r: Option<&Event>)
        requires
            self.wf(),
        ensures
            r matches Some(e) ==> {
                &&& resolve_spec(self.clock_index().forward(), self.clock_index().slots(), *creator, sequence)
                    matches Some(p) && self.slot_map().contains_key(e.id) && self.slot_map()[e.id] == p.1
                &&& self.events()[e.id] == e@
            },
            r is None ==> resolve_spec(self.clock_index().forward(), self.clock_index().slots(), *creator, sequence)
                is None || !(exists|id: EventId| #[trigger]
                self.slot_map().contains_key(id) && self.slot_map()[id] == resolve_spec(
                    self.clock_index().forward(),
                    self.clock_index().slots(),
                    *creator,
                    sequence,
                )->Some_0.1),
    {
        match self.index.resolve_parent(creator, sequence) {
            Some(p) => self.pool.get_by_slot(p.1),
            None => None,
        }
    }

    /// Like [`Self::resolve_parent`], but tells a pruned parent (with the id
    /// of a pruned event of that creator and sequence) from one never seen.
    pub fn resolve_parent_checked(&self, creator: &NodeId, sequence: u64) -> (r: Result<&Event, CausalGraphError>)
        requires
            self.wf(),
        ensures
            r matches Ok(e) ==> self.events().contains_key(e.id) && self.events()[e.id] == e@ && (
            resolve_spec(self.clock_index().forward(), self.clock_index().slots(), *creator, sequence)
                matches Some(p) && self.slot_map()[e.id] == p.1),
            r matches Err(CausalGraphError::EventPruned(s)) ==> exists|id: EventId| #[trigger]
                self.pruned().contains_key(id) && self.pruned()[id].creator == *creator
                    && self.pruned()[id].sequence == sequence && s@ == short_id(self.pruned()[id].event_id),
            r matches Err(e) ==> e is EventPruned || e is InvalidEvent,
            r matches Err(CausalGraphError::InvalidEvent(_)) ==> forall|id: EventId| #[trigger]
                self.pruned().contains_key(id) ==> !(self.pruned()[id].creator == *creator
                    && self.pruned()[id].sequence == sequence),
    {
        proof {
            self.pool.lemma_occupancy();
        }
        if let Some(e) = self.resolve_parent(creator, sequence) {
            return Ok(e);
        }
        proof {
            self.pruned_metadata.lemma_entries();
        }
        let n = self.pruned_metadata.len();
        let mut i: usize = 0;
        while i < n
            invariant
                self.wf(),
                n == self.pruned_metadata.entry_seq().len(),
                i <= n,
                forall|j: int| 0 <= j < i ==> !(#[trigger] self.pruned_metadata.entry_seq()[j].1.creator == *creator
                    && self.pruned_metadata.entry_seq()[j].1.sequence == sequence),
            decreases n - i,
        {
            let meta = self.pruned_metadata.value_at(i);
            if crate::ids::id_eq(&meta.creator, creator) && meta.sequence == sequence {
                proof {
                    self.pruned_metadata.lemma_entries();
                    let k = self.pruned_metadata.entry_seq()[i as int].0;
                    assert(0 <= i < self.pruned_metadata.entry_seq().len());
                    assert(self.pruned_metadata@.contains_key(k));
                    assert(self.pruned_metadata@[k] == self.pruned_metadata.entry_seq()[i as int].1);
                    assert(self.pruned().contains_key(k) && self.pruned()[k] == *meta);
                }
                return Err(CausalGraphError::EventPruned(short_hex(&meta.event_id)));
            }
            i = i + 1;
        }
        proof {
            self.pruned_metadata.lemma_entries();
            assert forall|id: EventId| #[trigger] self.pruned().contains_key(id) implies !(self.pruned()[id].creator
                == *creator && self.pruned()[id].sequence == sequence) by {
                let j = choose|j: int| 0 <= j < n && #[trigger] self.pruned_metadata.entry_seq()[j].0 == id;
                assert(!(self.pruned_metadata.entry_seq()[j].1.creator == *creator
                    && self.pruned_metadata.entry_seq()[j].1.sequence == sequence));
            }
        }
        let mut msg = String::from_str("parent not found: creator=");
        let mut prefix: Vec<u8> = Vec::new();
        let mut k: usize = 0;
        while k < 4
            invariant
                k <= 4,
            decreases 4 - k,
        {
            prefix.push(creator[k]);
            k = k + 1;
        }
        let h = crate::crypto::hex_encode(prefix.as_slice());
        msg.append(h.as_str());
        msg.append("/seq=");
        let d = crate::consensus::decimal_string(sequence);
        msg.append(d.as_str());
        Err(CausalGraphError::InvalidEvent(msg))
    }

    /// Whether `event_id` is stored.
    pub fn contains(&self, event_id: &EventId) -> (r: bool)
        requires
            self.wf(),
        ensures
            r == self.events().contains_key(*event_id),
    {
        self.pool.contains(event_id)
    }

    /// Mark the stored event `event_id` finalized in `round`.
    ///
    /// Fails with `EventPruned` when the event was pruned and with
    /// `InvalidEvent` when it is not stored; the pool is then unchanged. The
    /// finalized count grows only when the event was not finalized before.
    pub fn mark_finalized(&mut self, event_id: &EventId, round: u64) -> (r: Result<(), CausalGraphError>)
        requires
            old(self).wf(),
        ensures
            final(self).wf(),
            final(self).pruned() == old(self).pruned(),
            old(self).pruned().contains_key(*event_id) ==> (r matches Err(CausalGraphError::EventPruned(s))
                && s@ == short_id(*event_id)),
            !old(self).pruned().contains_key(*event_id) && !old(self).events().contains_key(*event_id) ==> (r matches Err(
                CausalGraphError::InvalidEvent(s),
            ) && s@ == "event not found: "@ + short_id(*event_id)),
            r is Err ==> final(self).events() == old(self).events() && final(self).finalized() == old(
                self,
            ).finalized() && final(self).finalized_total() == old(self).finalized_total(),
            !old(self).pruned().contains_key(*event_id) && old(self).events().contains_key(*event_id) ==> {
                &&& r is Ok
                &&& final(self).events() == old(self).events().insert(
                    *event_id,
                    with_status(old(self).events()[*event_id], EventStatus::Finalized),
                )
                &&& final(self).finalized() == old(self).finalized().insert(*event_id, round)
                &&& final(self).finalized_total() == old(self).finalized_total() + if old(
                    self,
                ).events()[*event_id].status == EventStatus::Finalized {
                    0int
                } else {
                    1int
                }
            },
    {
        if self.pruned_metadata.contains_key(event_id) {
            return Err(CausalGraphError::EventPruned(short_hex(event_id)));
        }
        let already = match self.pool.get(event_id) {
            Some(e) => e.status == EventStatus::Finalized,
            None => {
                return Err(CausalGraphError::InvalidEvent(message_with_id("event not found: ", event_id)));
            },
        };
        let ghost fr0 = self.finalized_rounds@;
        proof {
            self.finalized_rounds.lemma_entries();
            self.pool.lemma_occupancy();
            if !already {
                assert(!fr0.contains_key(*event_id));
                let ev = self.pool.events();
                assert(fr0.dom().subset_of(ev.dom().remove(*event_id)));
                vstd::set_lib::lemma_len_subset(fr0.dom(), ev.dom().remove(*event_id));
            }
        }
        self.pool.set_status(event_id, EventStatus::Finalized);
        if !already {
            self.finalized_count = self.finalized_count + 1;
        }
        self.finalized_rounds.insert(*event_id, round);
        proof {
            self.finalized_rounds.lemma_entries();
            if !already {
                assert(self.finalized_rounds@.dom() =~= fr0.dom().insert(*event_id));
            } else {
                assert(self.finalized_rounds@.dom() =~= fr0.dom().insert(*event_id));
                assert(fr0.dom().len() <= self.finalized_rounds@.dom().len());
            }
        }
        Ok(())
    }

    /// Prune the events finalized before `current_round - depth` (saturating
    /// at zero): take them out of the pool and the index, record their
    /// metadata, and evict the oldest metadata beyond [`MAX_PRUNED_EVENTS`].
    /// A `depth` of zero prunes nothing. Returns the number pruned.
    pub fn prune_finalized(&mut self, current_round: u64, depth: u64) -> (r: usize)
        requires
            old(self).wf(),
        ensures
            final(self).wf(),
            depth == 0 ==> r == 0 && final(self).events() == old(self).events() && final(self).finalized()
                == old(self).finalized() && final(self).pruned() == old(self).pruned(),
            final(self).inner().slot_count() == old(self).inner().slot_count(),
            final(self).inner().free_slots().len() == old(self).inner().free_slots().len() + r,
            depth > 0 ==> {
                let cutoff = if current_round >= depth {
                    (current_round - depth) as u64
                } else {
                    0u64
                };
                let due = due_for_pruning(old(self).finalized(), cutoff);
                let fresh = Map::new(
                    |id: EventId| due.contains(id),
                    |id: EventId| pruned_entry(id, old(self).events()[id], old(self).finalized()[id]),
                );
                let all = old(self).pruned().union_prefer_right(fresh);
                &&& r == due.len()
                &&& final(self).events() == old(self).events().remove_keys(due)
                &&& final(self).finalized() == old(self).finalized().remove_keys(due)
                &&& final(self).pruned().submap_of(all)
                &&& all.len() <= MAX_PRUNED_EVENTS ==> final(self).pruned() == all
                &&& all.len() > MAX_PRUNED_EVENTS ==> final(self).pruned().len() == MAX_PRUNED_EVENTS
                &&& evicted_after_adding(all, old(self).pruned_order(), due, final(self).pruned(), final(self).pruned_order())
                &&& final(self).finalized_total() == if old(self).finalized_total() >= due.len() {
                    old(self).finalized_total() - due.len()
                } else {
                    0
                }
            },
    {
        if depth == 0 {
            return 0;
        }
        let cutoff = current_round.saturating_sub(depth);
        let ghost fr0 = self.finalized_rounds@;
        let ghost ev0 = self.pool.events();
        let ghost md0 = self.pruned_metadata@;
        let ghost o0 = self.pruned_order@;
        let ghost due = due_for_pruning(fr0, cutoff);
        let to_prune = self.collect_due(cutoff);
        let pruned_count = to_prune.len();
        let ghost fresh = Map::new(
            |id: EventId| due.contains(id),
            |id: EventId| pruned_entry(id, ev0[id], fr0[id]),
        );
        let mut j: usize = 0;
        proof {
            assert(o0 + to_prune@.take(0) =~= o0);
            assert(to_prune@.take(0).to_set() =~= Set::<EventId>::empty());
            assert(fr0.remove_keys(Set::<EventId>::empty()) =~= fr0);
            assert(ev0.remove_keys(Set::<EventId>::empty()) =~= ev0);
            assert(md0.union_prefer_right(fresh.restrict(Set::<EventId>::empty())) =~= md0);
        }
        while j < to_prune.len()
            invariant
                j <= to_prune@.len(),
                to_prune@.no_duplicates(),
                to_prune@.to_set() == due,
                due == due_for_pruning(fr0, cutoff),
                fresh == Map::new(
                    |id: EventId| due.contains(id),
                    |id: EventId| pruned_entry(id, ev0[id], fr0[id]),
                ),
                self.pool.wf(),
                self.index.wf(),
                self.pruned_metadata.wf(),
                self.finalized_rounds.wf(),
                forall|id: EventId| #[trigger]
                    fr0.contains_key(id) ==> ev0.contains_key(id) && ev0[id].status == EventStatus::Finalized,
                self.finalized_rounds@ == fr0.remove_keys(to_prune@.take(j as int).to_set()),
                self.pool.events() == ev0.remove_keys(to_prune@.take(j as int).to_set()),
                self.pruned_metadata@ == md0.union_prefer_right(fresh.restrict(to_prune@.take(j as int).to_set())),
                forall|id: EventId| #[trigger]
                    self.pruned_metadata@.contains_key(id) ==> self.pruned_order@.contains(id),
                self.pruned_order@ == o0 + to_prune@.take(j as int),
                self.finalized_count == old(self).finalized_count,
                self.pool.slot_count() == old(self).pool.slot_count(),
                self.pool.free_slots().len() == old(self).pool.free_slots().len() + j,
            decreases to_prune@.len() - j,
        {
            let id = to_prune[j];
            let ghost done = to_prune@.take(j as int).to_set();
            proof {
                assert(to_prune@.take(j + 1) =~= to_prune@.take(j as int).push(id));
                to_prune@.take(j as int).lemma_push_to_set_commute(id);
                assert(due.contains(id));
                assert(!done.contains(id)) by {
                    if done.contains(id) {
                        let q = choose|q: int| 0 <= q < j && to_prune@.take(j as int)[q] == id;
                        assert(to_prune@[q] == to_prune@[j as int]);
                    }
                }
            }
            let finalized_round = match self.finalized_rounds.remove(&id) {
                Some(r) => r,
                None => {
                    proof {
                        assert(false);
                    }
                    0
                },
            };
            let removed = self.pool.remove(&id);
            match removed {
                Some(event) => {
                    self.index.remove_by_creator_sequence(&event.creator, event.sequence);
                    let meta = PrunedEventMetadata {
                        event_id: id,
                        creator: event.creator,
                        sequence: event.sequence,
                        depth: 0,
                        finalized_round,
                    };
                    assert(event@ == ev0[id]);
                    assert(finalized_round == fr0[id]);
                    assert(meta == pruned_entry(id, ev0[id], fr0[id]));
                    let ghost md_before = self.pruned_metadata@;
                    let ghost ob = self.pruned_order@;
                    self.pruned_metadata.insert(id, meta);
                    self.pruned_order.push(id);
                    proof {
                        assert forall|k: EventId| #[trigger] self.pruned_metadata@.contains_key(k) implies self.pruned_order@.contains(k) by {
                            if k == id {
                                assert(self.pruned_order@[self.pruned_order@.len() - 1] == id);
                            } else {
                                assert(md_before.contains_key(k));
                                assert(ob.contains(k));
                                let q = choose|q: int| 0 <= q < ob.len() && ob[q] == k;
                                assert(self.pruned_order@[q] == k);
                            }
                        }
                    }
                },
                None => {
                    proof {
                        assert(false);
                    }
                },
            }
            proof {
                let nd = to_prune@.take(j + 1).to_set();
                assert(nd == done.insert(id));
                assert(self.finalized_rounds@ =~= fr0.remove_keys(nd));
                assert(self.pool.events() =~= ev0.remove_keys(nd));
                assert(self.pruned_metadata@ =~= md0.union_prefer_right(fresh.restrict(nd)));
                assert(self.pruned_order@ =~= o0 + to_prune@.take(j + 1));
            }
            j = j + 1;
        }
        proof {
            assert(to_prune@.take(to_prune@.len() as int) =~= to_prune@);
            assert(fresh.restrict(due) =~= fresh);
            to_prune@.unique_seq_to_set();
        }
        self.finalized_count = self.finalized_count.saturating_sub(pruned_count);
        proof {
            self.finalized_rounds.lemma_entries();
            old(self).finalized_rounds.lemma_entries();
            assert(due.subset_of(fr0.dom()));
            assert(self.finalized_rounds@.dom() =~= fr0.dom().difference(due));
            vstd::set_lib::lemma_set_subset_finite(fr0.dom(), due);
            vstd::set_lib::lemma_set_difference_len(fr0.dom(), due);
            assert(fr0.dom().intersect(due) =~= due);
            assert(pruned_count == due.len());
            assert forall|id: EventId| #[trigger] self.finalized_rounds@.contains_key(id) implies self.pool.events().contains_key(id)
                && self.pool.events()[id].status == EventStatus::Finalized by {
                assert(fr0.contains_key(id) && !due.contains(id));
            }
        }
        let ghost all = self.pruned_metadata@;
        let ghost ord = self.pruned_order@;
        self.evict_pruned_events();
        proof {
            assert(ord == o0 + to_prune@);
            assert(all == md0.union_prefer_right(fresh));
            assert(oldest_evicted(all, o0 + to_prune@, self.pruned(), self.pruned_order()));
            assert(evicted_after_adding(all, o0, due, self.pruned(), self.pruned_order()));
        }
        pruned_count
    }

    /// The ids of the finalized events whose round is below `cutoff`.
    fn collect_due(&self, cutoff: u64) -> (r: Vec<EventId>)
        requires
            self.wf(),
        ensures
            r@.no_duplicates(),
            r@.to_set() == due_for_pruning(self.finalized(), cutoff),
    {
        proof {
            self.finalized_rounds.lemma_entries();
        }
        let n = self.finalized_rounds.len();
        let mut out: Vec<EventId> = Vec::new();
        let ghost mut src: Seq<int> = Seq::empty();
        let mut i: usize = 0;
        while i < n
            invariant
                self.wf(),
                n == self.finalized_rounds.entry_seq().len(),
                i <= n,
                out@.no_duplicates(),
                src.len() == out@.len(),
                forall|q: int| 0 <= q < out@.len() ==> 0 <= #[trigger] src[q] < i
                    && self.finalized_rounds.entry_seq()[src[q]].0 == out@[q]
                    && self.finalized_rounds.entry_seq()[src[q]].1 < cutoff,
                forall|j: int| 0 <= j < i && #[trigger] self.finalized_rounds.entry_seq()[j].1 < cutoff ==> out@.contains(
                    self.finalized_rounds.entry_seq()[j].0,
                ),
            decreases n - i,
        {
            proof {
                self.finalized_rounds.lemma_entries();
            }
            let k = *self.finalized_rounds.key_at(i);
            let v = *self.finalized_rounds.value_at(i);
            if v < cutoff {
                let ghost before = out@;
                proof {
                    assert(!before.contains(k)) by {
                        if before.contains(k) {
                            let q = choose|q: int| 0 <= q < before.len() && before[q] == k;
                            let j = src[q];
                            assert(self.finalized_rounds.entry_seq()[j].0 == k);
                            assert(self.finalized_rounds.entry_seq()[j].0 != self.finalized_rounds.entry_seq()[i as int].0);
                        }
                    }
                }
                out.push(k);
                proof {
                    assert forall|a: int, b: int| 0 <= a < out@.len() && 0 <= b < out@.len() && a != b implies out@[a] != out@[b] by {
                        if a == before.len() {
                            assert(before.contains(out@[b]));
                        } else if b == before.len() {
                            assert(before.contains(out@[a]));
                        }
                    }
                    src = src.push(i as int);
                    assert forall|j: int| 0 <= j < i + 1 && #[trigger] self.finalized_rounds.entry_seq()[j].1 < cutoff implies out@.contains(
                        self.finalized_rounds.entry_seq()[j].0,
                    ) by {
                        if j < i {
                            let q = choose|q: int| 0 <= q < before.len() && before[q] == self.finalized_rounds.entry_seq()[j].0;
                            assert(out@[q] == before[q]);
                        } else {
                            assert(out@[out@.len() - 1] == k);
                        }
                    }
                }
            }
            i = i + 1;
        }
        proof {
            self.finalized_rounds.lemma_entries();
            assert(out@.to_set() =~= due_for_pruning(self.finalized(), cutoff)) by {
                assert forall|x: EventId| out@.to_set().contains(x) <==> due_for_pruning(self.finalized(), cutoff).contains(x) by {
                    if due_for_pruning(self.finalized(), cutoff).contains(x) {
                        let j = choose|j: int|
                            0 <= j < n && #[trigger] self.finalized_rounds.entry_seq()[j].0 == x;
                        assert(self.finalized_rounds.entry_seq()[j].1 == self.finalized()[x]);
                        assert(out@.contains(self.finalized_rounds.entry_seq()[j].0));
                    }
                    if out@.contains(x) {
                        let q = choose|q: int| 0 <= q < out@.len() && out@[q] == x;
                        let j = src[q];
                        assert(self.finalized_rounds.entry_seq()[j].0 == x);
                        assert(self.finalized()[x] == self.finalized_rounds.entry_seq()[j].1);
                    }
                }
            }
        }
        out
    }

    /// Drop the oldest pruned metadata while more than
    /// [`MAX_PRUNED_EVENTS`] entries are kept.
    fn evict_pruned_events(&mut self)
        requires
            old(self).pruned_metadata.wf(),
            forall|id: EventId| #[trigger]
                old(self).pruned_metadata@.contains_key(id) ==> old(self).pruned_order@.contains(id),
        ensures
            final(self).pruned_metadata.wf(),
            forall|id: EventId| #[trigger]
                final(self).pruned_metadata@.contains_key(id) ==> final(self).pruned_order@.contains(id),
            oldest_evicted(
                old(self).pruned_metadata@,
                old(self).pruned_order@,
                final(self).pruned_metadata@,
                final(self).pruned_order@,
            ),
            final(self).pruned_metadata@.submap_of(old(self).pruned_metadata@),
            old(self).pruned_metadata@.len() <= MAX_PRUNED_EVENTS ==> final(self).pruned_metadata@ == old(
                self,
            ).pruned_metadata@,
            old(self).pruned_metadata@.len() > MAX_PRUNED_EVENTS ==> final(self).pruned_metadata@.len()
                == MAX_PRUNED_EVENTS,
            final(self).pool == old(self).pool,
            final(self).index == old(self).index,
            final(self).finalized_rounds == old(self).finalized_rounds,
            final(self).finalized_count == old(self).finalized_count,
    {
        let ghost md0 = self.pruned_metadata@;
        let ghost o0 = self.pruned_order@;
        let ghost mut k: int = 0;
        proof {
            assert(o0.subrange(0, 0).to_set() =~= Set::<EventId>::empty());
            assert(md0.remove_keys(Set::<EventId>::empty()) =~= md0);
            assert(o0.subrange(0, o0.len() as int) =~= o0);
        }
        while self.pruned_metadata.len() > MAX_PRUNED_EVENTS && self.pruned_order.len() > 0
            invariant
                self.pruned_metadata.wf(),
                forall|id: EventId| #[trigger]
                    self.pruned_metadata@.contains_key(id) ==> self.pruned_order@.contains(id),
                0 <= k <= o0.len(),
                self.pruned_metadata@ == evict_oldest(md0, o0, k),
                self.pruned_order@ == o0.subrange(k, o0.len() as int),
                forall|k2: int| 0 <= k2 < k ==> #[trigger] evict_oldest(md0, o0, k2).len() > MAX_PRUNED_EVENTS,
                md0 == old(self).pruned_metadata@,
                o0 == old(self).pruned_order@,
                self.pruned_metadata@.submap_of(old(self).pruned_metadata@),
                old(self).pruned_metadata@.len() <= MAX_PRUNED_EVENTS ==> self.pruned_metadata@ == old(
                    self,
                ).pruned_metadata@,
                old(self).pruned_metadata@.len() > MAX_PRUNED_EVENTS ==> self.pruned_metadata@.len()
                    >= MAX_PRUNED_EVENTS,
                self.pool == old(self).pool,
                self.index == old(self).index,
                self.finalized_rounds == old(self).finalized_rounds,
                self.finalized_count == old(self).finalized_count,
            decreases self.pruned_order@.len(),
        {
            let ghost order0 = self.pruned_order@;
            let ghost md_before = self.pruned_metadata@;
            proof {
                self.pruned_metadata.lemma_entries();
                assert(evict_oldest(md0, o0, k).len() > MAX_PRUNED_EVENTS);
            }
            let oldest = self.pruned_order.remove(0);
            proof {
                self.pruned_metadata.lemma_entries();
            }
            self.pruned_metadata.remove(&oldest);
            proof {
                self.pruned_metadata.lemma_entries();
                if md_before.contains_key(oldest) {
                    assert(self.pruned_metadata@.dom() =~= md_before.dom().remove(oldest));
                } else {
                    assert(self.pruned_metadata@ =~= md_before);
                }
                assert forall|id: EventId| #[trigger] self.pruned_metadata@.contains_key(id) implies self.pruned_order@.contains(id) by {
                    assert(md_before.contains_key(id));
                    let q = choose|q: int| 0 <= q < order0.len() && order0[q] == id;
                    assert(q != 0);
                    assert(self.pruned_order@[q - 1] == id);
                }
                let ok = o0.subrange(0, k);
                assert(oldest == o0[k]);
                assert(o0.subrange(0, k + 1) =~= ok.push(oldest));
                ok.lemma_push_to_set_commute(oldest);
                assert(self.pruned_metadata@ =~= md0.remove_keys(o0.subrange(0, k + 1).to_set()));
                assert(self.pruned_order@ =~= o0.subrange(k + 1, o0.len() as int));
                k = k + 1;
            }
        }
        proof {
            self.pruned_metadata.lemma_entries();
            if self.pruned_order@.len() == 0 {
                assert(self.pruned_metadata@.dom() =~= Set::<EventId>::empty()) by {
                    assert forall|id: EventId| !self.pruned_metadata@.contains_key(id) by {
                        if self.pruned_metadata@.contains_key(id) {
                            assert(self.pruned_order@.contains(id));
                        }
                    }
                }
                assert(k == o0.len());
            }
            assert(evict_oldest(md0, o0, k) == self.pruned_metadata@);
        }
    }

    /// Whether `event_id` was pruned (and its metadata is still kept).
    pub fn is_pruned(&self, event_id: &EventId) -> (r: bool)
        requires
            self.wf(),
        ensures
            r == self.pruned().contains_key(*event_id),
    {
        self.pruned_metadata.contains_key(event_id)
    }

    /// The metadata of the pruned event `event_id`.
    pub fn get_pruned_metadata(&self, event_id: &EventId) -> (r: Option<&PrunedEventMetadata>)
        requires
            self.wf(),
        ensures
            r.is_some() == self.pruned().contains_key(*event_id),
            r matches Some(m) ==> *m == self.pruned()[*event_id],
    {
        self.pruned_metadata.get(event_id)
    }

    /// Number of stored events.
    pub fn len(&self) -> (r: usize)
        requires
            self.wf(),
        ensures
            r == self.events().len(),
    {
        self.pool.len()
    }

    /// Whether no event is stored.
    pub fn is_empty(&self) -> (r: bool)
        requires
            self.wf(),
        ensures
            r == (self.events().len() == 0),
    {
        self.pool.is_empty()
    }

    /// Number of slots.
    pub fn capacity(&self) -> (r: usize)
        requires
            self.wf(),
        ensures
            r == self.inner().slot_count(),
    {
        self.pool.capacity()
    }

    /// Number of free slots.
    pub fn free_count(&self) -> (r: usize)
        requires
            self.wf(),
        ensures
            r == self.inner().free_slots().len(),
    {
        self.pool.free_count()
    }

    /// Whether a free slot is available.
    pub fn is_at_steady_state(&self) -> (r: bool)
        requires
            self.wf(),
        ensures
            r == (self.inner().free_slots().len() > 0),
    {
        self.pool.is_at_steady_state()
    }

    /// Figures about the pool and the index.
    pub fn stats(&self) -> (r: PoolStats)
        requires
            self.wf(),
        ensures
            r.occupied_slots == self.events().len(),
            r.pool_capacity == self.inner().slot_count(),
            r.free_slots == self.inner().free_slots().len(),
            r.indexed_creators == self.clock_index().forward().len(),
            r.finalized_count == self.finalized_total(),
            r.pruned_count == self.pruned().len(),
            r.growth_count == self.inner().growths(),
    {
        let pool_stats = self.pool.stats();
        let index_stats = self.index.stats();
        PoolStats {
            occupied_slots: pool_stats.occupied,
            pool_capacity: pool_stats.total_capacity,
            free_slots: pool_stats.free,
            indexed_creators: index_stats.creator_count,
            index_entries: index_stats.total_entries,
            finalized_count: self.finalized_count,
            pruned_count: self.pruned_metadata.len(),
            growth_count: pool_stats.growth_count,
        }
    }
}

} // verus!
