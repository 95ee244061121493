//! A slab of event slots with a free list.
//!
//! Events are stored in slots of a vector; a slot that is freed by a removal
//! is linked into a free list and reused by the next insertion before the
//! slab grows. The slab grows by one and a half times its initial capacity at
//! a time, never beyond its maximum capacity, and never shrinks.
use vstd::prelude::*;
use crate::ids::EventId;
use crate::event::Event;
use crate::event::EventView;
use crate::event::EventStatus;
use crate::vec_map::VecMap;
use crate::causal_graph::short_hex;
use crate::causal_graph::short_id;

verus! {

/// A slot: occupied by an event, or free and linked to the next free slot.
pub enum Slot {
    /// The slot holds an event.
    Occupied { event: Box<Event> },
    /// The slot is free; `next_free` is the next free slot, if any.
    Free { next_free: Option<usize> },
}

/// Errors of pool operations.
#[derive(Debug, Clone, PartialEq, Eq)]
pub enum EventPoolError {
    /// The pool is at its maximum capacity: (capacity, maximum).
    PoolFull(usize, usize),
    /// An event with the same id is already stored (first bytes of the id, in hex).
    DuplicateEvent(String),
    /// An event failed validation.
    InvalidEvent(String),
}

/// The message of an event pool error.
pub open spec fn pool_error_text(e: EventPoolError) -> Seq<char> {
    match e {
        EventPoolError::PoolFull(_, _) => "Pool is full"@,
        EventPoolError::DuplicateEvent(s) => s@,
        EventPoolError::InvalidEvent(s) => s@,
    }
}

impl EventPoolError {
    /// A human-readable description of the error.
    pub fn message(&self) -> (r: String)
        ensures
            r@ == pool_error_text(*self),
    {
        match self {
            EventPoolError::PoolFull(_, _) => "Pool is full".to_owned(),
            EventPoolError::DuplicateEvent(s) => s.clone(),
            EventPoolError::InvalidEvent(s) => s.clone(),
        }
    }
}

/// Occupancy figures of a pool.
#[derive(Debug, Clone, Copy, PartialEq, Eq)]
pub struct EventPoolStats {
    /// Number of slots.
    pub total_capacity: usize,
    /// Number of occupied slots.
    pub occupied: usize,
    /// Number of free slots.
    pub free: usize,
    /// Number of times the pool has grown.
    pub growth_count: usize,
}

/// The capacity after growing a pool of `len` slots: one and a half times
/// the initial capacity more (at least one), bounded by the maximum.
pub open spec fn grown_capacity(len: nat, initial: nat, max: nat) -> nat {
    let add = initial + initial / 2;
    let add = if add == 0 {
        1
    } else {
        add
    };
    if len + add <= max {
        (len + add) as nat
    } else {
        max
    }
}

/// A slab of event slots.
pub struct EventPool {
    slots: Vec<Slot>,
    index: VecMap<EventId, usize>,
    free_head: Option<usize>,
    occupied_count: usize,
    initial_capacity: usize,
    max_capacity: usize,
    growth_count: usize,
    free_list: Ghost<Seq<usize>>,
}

/// The slot holds an event.
pub open spec fn is_occupied(s: Slot) -> bool {
    s is Occupied
}

/// The free list `fl` is linked through free slots and holds every free
/// slot once, and `index` gives every stored event its slot.
#[verifier::opaque]
pub open spec fn layout_ok(slots: Seq<Slot>, index: Map<EventId, usize>, fl: Seq<usize>) -> bool {
    let n = slots.len();
    &&& fl.no_duplicates()
    &&& forall|i: int|
        0 <= i < fl.len() ==> #[trigger] fl[i] < n && slots[fl[i] as int] is Free
            && slots[fl[i] as int]->next_free == if i + 1 < fl.len() {
            Some(fl[i + 1])
        } else {
            None
        }
    &&& forall|j: int| 0 <= j < n && #[trigger] slots[j] is Free ==> fl.contains(j as usize)
    &&& forall|id: EventId| #[trigger]
        index.contains_key(id) ==> index[id] < n && slots[index[id] as int] is Occupied
            && slots[index[id] as int]->event.id == id
    &&& forall|j: int|
        0 <= j < n && #[trigger] slots[j] is Occupied ==> index.contains_key(slots[j]->event.id)
            && index[slots[j]->event.id] == j
}

/// An event with another status.
pub open spec fn with_status(v: EventView, s: EventStatus) -> EventView {
    EventView {
        id: v.id,
        creator: v.creator,
        sequence: v.sequence,
        self_parent: v.self_parent,
        other_parent: v.other_parent,
        clock: v.clock,
        timestamp: v.timestamp,
        payload: v.payload,
        status: s,
        ack_count: v.ack_count,
    }
}

/// Replacing a stored event by one with the same id keeps the layout.
proof fn lemma_replace_event(
    before: Seq<Slot>,
    index: Map<EventId, usize>,
    fl: Seq<usize>,
    id: EventId,
    after: Seq<Slot>,
)
    requires
        layout_ok(before, index, fl),
        index.contains_key(id),
        index[id] < before.len(),
        after.len() == before.len(),
        forall|j: int| 0 <= j < before.len() && j != index[id] ==> after[j] == before[j],
        after[index[id] as int] is Occupied,
        after[index[id] as int]->event.id == id,
    ensures
        layout_ok(after, index, fl),
{
    reveal(layout_ok);
    let idx = index[id];
    assert forall|k: EventId| #[trigger] index.contains_key(k) implies index[k] < after.len()
        && after[index[k] as int] is Occupied && after[index[k] as int]->event.id == k by {
        if k != id {
            assert(before[index[k] as int]->event.id == k);
            assert(index[k] != idx);
        }
    }
    assert forall|i: int| 0 <= i < fl.len() implies #[trigger] fl[i] < after.len() && after[fl[i] as int] is Free
        && after[fl[i] as int]->next_free == if i + 1 < fl.len() {
        Some(fl[i + 1])
    } else {
        None
    } by {
        assert(before[fl[i] as int] is Free);
        assert(fl[i] != idx);
    }
    assert forall|j: int| 0 <= j < after.len() && #[trigger] after[j] is Occupied implies index.contains_key(
        after[j]->event.id,
    ) && index[after[j]->event.id] == j by {
        if j != idx {
            assert(before[j] is Occupied);
        }
    }
}

/// A stored event sits, alone, in the slot the index gives it.
proof fn lemma_index_slot(slots: Seq<Slot>, index: Map<EventId, usize>, fl: Seq<usize>, id: EventId)
    requires
        layout_ok(slots, index, fl),
        index.contains_key(id),
    ensures
        index[id] < slots.len(),
        slots[index[id] as int] is Occupied,
        slots[index[id] as int]->event.id == id,
        forall|k: EventId| #[trigger] index.contains_key(k) && k != id ==> index[k] != index[id],
{
    reveal(layout_ok);
    assert forall|k: EventId| #[trigger] index.contains_key(k) && k != id implies index[k] != index[id] by {
        assert(slots[index[k] as int]->event.id == k);
    }
}

/// Freeing the slot of a stored event and pushing it on the front of the
/// free list keeps the layout consistent.
proof fn lemma_free_slot(
    before: Seq<Slot>,
    index: Map<EventId, usize>,
    fl: Seq<usize>,
    id: EventId,
    after: Seq<Slot>,
)
    requires
        layout_ok(before, index, fl),
        index.contains_key(id),
        after == before.update(
            index[id] as int,
            Slot::Free {
                next_free: if fl.len() > 0 {
                    Some(fl[0])
                } else {
                    None
                },
            },
        ),
    ensures
        layout_ok(after, index.remove(id), seq![index[id]] + fl),
        forall|k: EventId| #[trigger] index.contains_key(k) && k != id ==> index[k] != index[id],
        before[index[id] as int] is Occupied,
        before[index[id] as int]->event.id == id,
{
    reveal(layout_ok);
    let idx = index[id];
    let nfl = seq![idx] + fl;
    let ni = index.remove(id);
    assert(before[idx as int] is Occupied);
    assert(!fl.contains(idx)) by {
        if fl.contains(idx) {
            let q = choose|q: int| 0 <= q < fl.len() && fl[q] == idx;
            assert(before[fl[q] as int] is Free);
        }
    }
    assert forall|a: int, b: int| 0 <= a < nfl.len() && 0 <= b < nfl.len() && a != b implies nfl[a] != nfl[b] by {
        if a == 0 {
            assert(nfl[b] == fl[b - 1]);
        } else if b == 0 {
            assert(nfl[a] == fl[a - 1]);
        } else {
            assert(nfl[a] == fl[a - 1] && nfl[b] == fl[b - 1]);
        }
    }
    assert forall|i: int| 0 <= i < nfl.len() implies #[trigger] nfl[i] < after.len()
        && after[nfl[i] as int] is Free && after[nfl[i] as int]->next_free == if i + 1 < nfl.len() {
        Some(nfl[i + 1])
    } else {
        None
    } by {
        if i > 0 {
            assert(nfl[i] == fl[i - 1]);
            assert(fl[i - 1] != idx);
            if i + 1 < nfl.len() {
                assert(nfl[i + 1] == fl[i]);
            }
        } else {
            if fl.len() > 0 {
                assert(nfl[1] == fl[0]);
            }
        }
    }
    assert forall|j: int| 0 <= j < after.len() && #[trigger] after[j] is Free implies nfl.contains(j as usize) by {
        if j == idx {
            assert(nfl[0] == j as usize);
        } else {
            assert(before[j] is Free);
            let q = choose|q: int| 0 <= q < fl.len() && fl[q] == j as usize;
            assert(nfl[q + 1] == j as usize);
        }
    }
    assert forall|k: EventId| #[trigger] ni.contains_key(k) implies ni[k] < after.len()
        && after[ni[k] as int] is Occupied && after[ni[k] as int]->event.id == k by {
        assert(index.contains_key(k));
        assert(before[index[k] as int]->event.id == k);
        assert(index[k] != idx);
    }
    assert forall|j: int| 0 <= j < after.len() && #[trigger] after[j] is Occupied implies ni.contains_key(
        after[j]->event.id,
    ) && ni[after[j]->event.id] == j by {
        assert(j != idx);
        assert(before[j] is Occupied);
        assert(before[j]->event.id != id);
    }
    assert forall|k: EventId| #[trigger] index.contains_key(k) && k != id implies index[k] != index[id] by {
        assert(before[index[k] as int]->event.id == k);
    }
}

impl EventPool {
    /// The stored events by id.
    pub closed spec fn events(&self) -> Map<EventId, EventView> {
        Map::new(
            |id: EventId| self.index@.contains_key(id),
            |id: EventId| self.slots@[self.index@[id] as int]->event@,
        )
    }

    /// The slot of each stored event.
    pub closed spec fn slot_map(&self) -> Map<EventId, usize> {
        self.index@
    }

    /// The free slots, in the order they will be reused.
    pub closed spec fn free_slots(&self) -> Seq<usize> {
        self.free_list@
    }

    /// Number of slots.
    pub closed spec fn slot_count(&self) -> nat {
        self.slots@.len()
    }

    /// The capacity the pool started with.
    pub closed spec fn initial_cap(&self) -> nat {
        self.initial_capacity as nat
    }

    /// The capacity the pool never exceeds.
    pub closed spec fn max_cap(&self) -> nat {
        self.max_capacity as nat
    }

    /// Number of times the pool has grown.
    pub closed spec fn growths(&self) -> nat {
        self.growth_count as nat
    }

    /// The free list is linked through the free slots, every free slot is on
    /// it, and every stored event sits in the slot the index gives it.
    pub closed spec fn wf(&self) -> bool {
        let fl = self.free_list@;
        let n = self.slots@.len();
        &&& self.index.wf()
        &&& 0 < self.initial_capacity <= self.max_capacity
        &&& n <= self.max_capacity
        &&& self.growth_count <= n
        &&& layout_ok(self.slots@, self.index@, fl)
        &&& self.free_head == if fl.len() > 0 {
            Some(fl[0])
        } else {
            None
        }
        &&& self.occupied_count == self.index@.len()
        &&& self.occupied_count + fl.len() == n
    }

    /// Slot law: two stored events never share a slot.
    pub proof fn lemma_slots_distinct(&self, a: EventId, b: EventId)
        requires
            self.wf(),
            self.slot_map().contains_key(a),
            self.slot_map().contains_key(b),
            a != b,
        ensures
            self.slot_map()[a] != self.slot_map()[b],
    {
        reveal(layout_ok);
        assert(self.slots@[self.index@[a] as int]->event.id == a);
        assert(self.slots@[self.index@[b] as int]->event.id == b);
    }

    /// A pool of `initial_capacity` free slots that may grow up to
    /// `max_capacity` slots.
    pub fn new(initial_capacity: usize, max_capacity: usize) -> (r: Self)
        requires
            initial_capacity > 0,
            initial_capacity <= max_capacity,
        ensures
            r.wf(),
            r.events() == Map::<EventId, EventView>::empty(),
            r.slot_count() == initial_capacity,
            r.free_slots() == Seq::new(initial_capacity as nat, |i: int| i as usize),
            r.initial_cap() == initial_capacity,
            r.max_cap() == max_capacity,
            r.growths() == 0,
    {
        proof {
            reveal(layout_ok);
        }
        let mut slots: Vec<Slot> = Vec::new();
        let mut i: usize = 0;
        while i < initial_capacity
            invariant
                i <= initial_capacity,
                slots@.len() == i,
                forall|j: int|
                    0 <= j < i ==> #[trigger] slots@[j] is Free && slots@[j]->next_free == if j + 1
                        < initial_capacity {
                        Some((j + 1) as usize)
                    } else {
                        None
                    },
            decreases initial_capacity - i,
        {
            let next_free = if i + 1 < initial_capacity {
                Some(i + 1)
            } else {
                None
            };
            slots.push(Slot::Free { next_free });
            i = i + 1;
        }
        let ghost fl = Seq::new(initial_capacity as nat, |i: int| i as usize);
        let r = EventPool {
            slots,
            index: VecMap::new(),
            free_head: Some(0),
            occupied_count: 0,
            initial_capacity,
            max_capacity,
            growth_count: 0,
            free_list: Ghost(fl),
        };
        proof {
            assert forall|j: int| 0 <= j < r.slots@.len() && #[trigger] r.slots@[j] is Free implies fl.contains(
                j as usize,
            ) by {
                assert(fl[j] == j as usize);
            }
            assert(r.events() =~= Map::<EventId, EventView>::empty());
        }
        r
    }

    /// Insert `event`; returns the slot it was placed in.
    ///
    /// The first free slot is reused; when there is none the pool grows
    /// first. Fails with `DuplicateEvent` when an event with the same id is
    /// stored, and with `PoolFull` when no slot is free and the pool is at its
    /// maximum capacity; in both cases the pool is unchanged.
    #[verifier::rlimit(30)]
    pub fn insert(&mut self, event: Event) -> (r: Result<usize, EventPoolError>)
        requires
            old(self).wf(),
        ensures
            final(self).wf(),
            final(self).initial_cap() == old(self).initial_cap(),
            final(self).max_cap() == old(self).max_cap(),
            old(self).events().contains_key(event.id) ==> (r matches Err(
                EventPoolError::DuplicateEvent(s),
            ) && s@ == short_id(event.id)),
            !old(self).events().contains_key(event.id) && old(self).free_slots().len() == 0
                && old(self).slot_count() >= old(self).max_cap() ==> r == Err::<usize, EventPoolError>(
                EventPoolError::PoolFull(old(self).slot_count() as usize, old(self).max_cap() as usize),
            ),
            r is Err ==> final(self).events() == old(self).events() && final(self).slot_map() == old(
                self,
            ).slot_map() && final(self).slot_count() == old(self).slot_count() && final(self).free_slots()
                == old(self).free_slots() && final(self).growths() == old(self).growths(),
            !old(self).events().contains_key(event.id) && old(self).free_slots().len() > 0 ==> {
                &&& r == Ok::<usize, EventPoolError>(old(self).free_slots()[0])
                &&& final(self).slot_count() == old(self).slot_count()
                &&& final(self).free_slots() == old(self).free_slots().drop_first()
                &&& final(self).growths() == old(self).growths()
            },
            !old(self).events().contains_key(event.id) && old(self).free_slots().len() == 0
                && old(self).slot_count() < old(self).max_cap() ==> {
                &&& r == Ok::<usize, EventPoolError>(old(self).slot_count() as usize)
                &&& final(self).slot_count() == grown_capacity(
                    old(self).slot_count(),
                    old(self).initial_cap(),
                    old(self).max_cap(),
                )
                &&& final(self).free_slots() == Seq::new(
                    (final(self).slot_count() - old(self).slot_count() - 1) as nat,
                    |i: int| (old(self).slot_count() + 1 + i) as usize,
                )
                &&& final(self).growths() == old(self).growths() + 1
            },
            r is Ok ==> final(self).events() == old(self).events().insert(event.id, event@)
                && final(self).slot_map() == old(self).slot_map().insert(event.id, r->Ok_0)
                && r->Ok_0 < final(self).slot_count(),
    {
        proof {
            reveal(layout_ok);
        }
        let event_id = event.id;
        if self.index.contains_key(&event_id) {
            return Err(EventPoolError::DuplicateEvent(short_hex(&event_id)));
        }
        if self.free_head.is_none() {
            match self.grow() {
                Ok(()) => {},
                Err(e) => {
                    return Err(e);
                },
            }
        }
        let idx = match self.free_head {
            Some(idx) => idx,
            None => {
                return Err(EventPoolError::PoolFull(self.slots.len(), self.max_capacity));
            },
        };
        let next_free = match &self.slots[idx] {
            Slot::Free { next_free } => *next_free,
            Slot::Occupied { .. } => {
                return Err(EventPoolError::PoolFull(self.slots.len(), self.max_capacity));
            },
        };
        let ghost fl = self.free_list@;
        let ghost before = self.slots@;
        let ghost old_index = self.index@;
        let ghost ev = event@;
        proof {
            self.index.lemma_entries();
        }
        self.free_head = next_free;
        self.slots.set(idx, Slot::Occupied { event: Box::new(event) });
        self.index.insert(event_id, idx);
        self.occupied_count = self.occupied_count + 1;
        self.free_list = Ghost(fl.drop_first());
        proof {
            let nfl = fl.drop_first();
            assert(fl[0] == idx);
            assert forall|i: int| 0 <= i < nfl.len() implies #[trigger] nfl[i] < self.slots@.len()
                && self.slots@[nfl[i] as int] is Free && self.slots@[nfl[i] as int]->next_free == if i
                + 1 < nfl.len() {
                Some(nfl[i + 1])
            } else {
                None
            } by {
                assert(nfl[i] == fl[i + 1]);
                assert(fl[i + 1] != fl[0]);
            }
            assert(self.free_head == if nfl.len() > 0 {
                Some(nfl[0])
            } else {
                None
            }) by {
                if nfl.len() > 0 {
                    assert(nfl[0] == fl[1]);
                }
            }
            assert forall|j: int| 0 <= j < self.slots@.len() && #[trigger] self.slots@[j] is Free implies nfl.contains(
                j as usize,
            ) by {
                assert(j != idx);
                assert(before[j] is Free);
                let q = choose|q: int| 0 <= q < fl.len() && fl[q] == j as usize;
                assert(q != 0);
                assert(nfl[q - 1] == j as usize);
            }
            assert forall|id: EventId| #[trigger] self.index@.contains_key(id) implies self.index@[id]
                < self.slots@.len() && self.slots@[self.index@[id] as int] is Occupied
                && self.slots@[self.index@[id] as int]->event.id == id by {
                if id != event_id {
                    assert(old_index.contains_key(id));
                    assert(before[old_index[id] as int] is Occupied);
                }
            }
            assert forall|j: int|
                0 <= j < self.slots@.len() && #[trigger] self.slots@[j] is Occupied implies self.index@.contains_key(
                self.slots@[j]->event.id,
            ) && self.index@[self.slots@[j]->event.id] == j by {
                if j != idx {
                    assert(before[j] is Occupied);
                    assert(old_index.contains_key(before[j]->event.id));
                    assert(before[j]->event.id != event_id);
                }
            }
            assert(self.index@.len() == old_index.len() + 1) by {
                assert(!old_index.contains_key(event_id));
                assert(self.index@.dom() =~= old_index.dom().insert(event_id));
            }
            assert(self.events() =~= old(self).events().insert(event_id, ev)) by {
                assert forall|id: EventId| #[trigger] self.index@.contains_key(id) && id != event_id implies
                    self.slots@[self.index@[id] as int] == before[old_index[id] as int] by {
                    assert(old_index[id] != idx);
                }
            }
        }
        Ok(idx)
    }

    /// Allocate more free slots at the end: one and a half times the initial
    /// capacity (at least one), bounded by the maximum capacity. The new
    /// slots come first on the free list.
    fn grow(&mut self) -> (r: Result<(), EventPoolError>)
        requires
            old(self).wf(),
            old(self).free_list@.len() == 0,
        ensures
            final(self).wf(),
            final(self).initial_capacity == old(self).initial_capacity,
            final(self).max_capacity == old(self).max_capacity,
            final(self).index@ == old(self).index@,
            final(self).events() == old(self).events(),
            old(self).slots@.len() >= old(self).max_capacity ==> r == Err::<(), EventPoolError>(
                EventPoolError::PoolFull(old(self).slots@.len() as usize, old(self).max_capacity),
            ) && final(self).slots@ == old(self).slots@ && final(self).free_list@ == old(
                self,
            ).free_list@ && final(self).growth_count == old(self).growth_count,
            old(self).slots@.len() < old(self).max_capacity ==> {
                &&& r is Ok
                &&& final(self).slots@.len() == grown_capacity(
                    old(self).slots@.len(),
                    old(self).initial_capacity as nat,
                    old(self).max_capacity as nat,
                )
                &&& final(self).free_list@ == Seq::new(
                    (final(self).slots@.len() - old(self).slots@.len()) as nat,
                    |i: int| (old(self).slots@.len() + i) as usize,
                )
                &&& final(self).growth_count == old(self).growth_count + 1
            },
    {
        proof {
            reveal(layout_ok);
        }
        if self.slots.len() >= self.max_capacity {
            return Err(EventPoolError::PoolFull(self.slots.len(), self.max_capacity));
        }
        let half = self.initial_capacity / 2;
        let mut additional = self.initial_capacity.saturating_add(half);
        if additional == 0 {
            additional = 1;
        }
        let sum = self.slots.len().saturating_add(additional);
        let new_total = if sum < self.max_capacity {
            sum
        } else {
            self.max_capacity
        };
        let actual_additional = new_total - self.slots.len();
        let start_idx = self.slots.len();
        let ghost before = self.slots@;
        let ghost old_index = self.index@;
        let mut i: usize = 0;
        while i < actual_additional
            invariant
                0 < actual_additional,
                start_idx == before.len(),
                start_idx + actual_additional <= self.max_capacity,
                i <= actual_additional,
                self.slots@.len() == start_idx + i,
                self.slots@.subrange(0, start_idx as int) == before,
                self.free_head.is_none(),
                forall|t: int|
                    0 <= t < i ==> #[trigger] self.slots@[start_idx + t] is Free && self.slots@[start_idx
                        + t]->next_free == if t + 1 < actual_additional {
                        Some((start_idx + t + 1) as usize)
                    } else {
                        None
                    },
                self.index@ == old_index,
                self.free_list == old(self).free_list,
                self.occupied_count == old(self).occupied_count,
                self.growth_count == old(self).growth_count,
                self.initial_capacity == old(self).initial_capacity,
                self.max_capacity == old(self).max_capacity,
                self.index.wf(),
            decreases actual_additional - i,
        {
            let next_free = if i + 1 < actual_additional {
                Some(start_idx + i + 1)
            } else {
                self.free_head
            };
            let ghost prev = self.slots@;
            self.slots.push(Slot::Free { next_free });
            proof {
                assert(self.slots@.subrange(0, start_idx as int) =~= prev.subrange(0, start_idx as int));
            }
            i = i + 1;
        }
        self.free_head = Some(start_idx);
        self.growth_count = self.growth_count + 1;
        let ghost fl = Seq::new(actual_additional as nat, |t: int| (start_idx + t) as usize);
        self.free_list = Ghost(fl);
        proof {
            assert forall|j: int| 0 <= j < start_idx implies self.slots@[j] == before[j] by {
                assert(self.slots@.subrange(0, start_idx as int)[j] == self.slots@[j]);
            }
            assert forall|q: int| 0 <= q < fl.len() implies #[trigger] fl[q] < self.slots@.len()
                && self.slots@[fl[q] as int] is Free && self.slots@[fl[q] as int]->next_free == if q + 1
                < fl.len() {
                Some(fl[q + 1])
            } else {
                None
            } by {
                assert(self.slots@[start_idx + q] is Free);
            }
            assert forall|j: int| 0 <= j < self.slots@.len() && #[trigger] self.slots@[j] is Free implies fl.contains(
                j as usize,
            ) by {
                if j < start_idx {
                    assert(before[j] is Free);
                    assert(old(self).free_list@.contains(j as usize));
                } else {
                    assert(fl[j - start_idx] == j as usize);
                }
            }
            assert forall|id: EventId| #[trigger] self.index@.contains_key(id) implies self.index@[id]
                < self.slots@.len() && self.slots@[self.index@[id] as int] is Occupied
                && self.slots@[self.index@[id] as int]->event.id == id by {
                assert(before[old_index[id] as int] is Occupied);
            }
            assert forall|j: int|
                0 <= j < self.slots@.len() && #[trigger] self.slots@[j] is Occupied implies self.index@.contains_key(
                self.slots@[j]->event.id,
            ) && self.index@[self.slots@[j]->event.id] == j by {
                if j < start_idx {
                    assert(before[j] is Occupied);
                } else {
                    assert(self.slots@[start_idx + (j - start_idx)] is Free);
                }
            }
            assert(self.events() =~= old(self).events()) by {
                assert forall|id: EventId| #[trigger] self.index@.contains_key(id) implies self.slots@[self.index@[id] as int]
                    == before[self.index@[id] as int] by {
                    assert(before[old_index[id] as int] is Occupied);
                }
            }
        }
        Ok(())
    }

    /// Set the status of the stored event `event_id`; returns whether it is
    /// stored.
    pub(crate) fn set_status(&mut self, event_id: &EventId, status: EventStatus) -> (r: bool)
        requires
            old(self).wf(),
        ensures
            final(self).wf(),
            r == old(self).events().contains_key(*event_id),
            r ==> final(self).events() == old(self).events().insert(
                *event_id,
                with_status(old(self).events()[*event_id], status),
            ),
            !r ==> final(self).events() == old(self).events(),
            final(self).slot_map() == old(self).slot_map(),
            final(self).free_slots() == old(self).free_slots(),
            final(self).slot_count() == old(self).slot_count(),
            final(self).growths() == old(self).growths(),
            final(self).initial_cap() == old(self).initial_cap(),
            final(self).max_cap() == old(self).max_cap(),
    {
        let idx = match self.index.get(event_id) {
            Some(i) => *i,
            None => {
                return false;
            },
        };
        proof {
            lemma_index_slot(self.slots@, self.index@, self.free_list@, *event_id);
        }
        let ghost before = self.slots@;
        let mut slot = Slot::Free { next_free: None };
        std::mem::swap(&mut slot, &mut self.slots[idx]);
        let new_slot = match slot {
            Slot::Occupied { event } => {
                let mut e = *event;
                e.status = status;
                Slot::Occupied { event: Box::new(e) }
            },
            Slot::Free { next_free } => Slot::Free { next_free },
        };
        self.slots.set(idx, new_slot);
        proof {
            lemma_replace_event(before, self.index@, self.free_list@, *event_id, self.slots@);
            assert(self.events() =~= old(self).events().insert(
                *event_id,
                with_status(old(self).events()[*event_id], status),
            )) by {
                assert forall|id: EventId| #[trigger] self.index@.contains_key(id) && id != *event_id implies
                    self.slots@[self.index@[id] as int] == before[self.index@[id] as int] by {
                    lemma_index_slot(before, self.index@, self.free_list@, id);
                }
            }
        }
        true
    }

    /// The stored event with id `event_id`.
    pub fn get(&self, event_id: &EventId) -> (r: Option<&Event>)
        requires
            self.wf(),
        ensures
            r.is_some() == self.events().contains_key(*event_id),
            r matches Some(e) ==> e@ == self.events()[*event_id],
    {
        proof {
            reveal(layout_ok);
        }
        match self.index.get(event_id) {
            Some(slot_idx) => match &self.slots[*slot_idx] {
                Slot::Occupied { event } => Some(&**event),
                Slot::Free { .. } => None,
            },
            None => None,
        }
    }

    /// The event in slot `slot`, if the slot exists and is occupied.
    pub fn get_by_slot(&self, slot: usize) -> (r: Option<&Event>)
        requires
            self.wf(),
        ensures
            r.is_some() == exists|id: EventId| #[trigger]
                self.slot_map().contains_key(id) && self.slot_map()[id] == slot,
            r matches Some(e) ==> self.slot_map().contains_key(e.id) && self.slot_map()[e.id] == slot
                && self.events()[e.id] == e@,
            r matches Some(e) ==> forall|id: EventId| #[trigger]
                self.slot_map().contains_key(id) && self.slot_map()[id] == slot ==> id == e.id,
    {
        proof {
            reveal(layout_ok);
            assert forall|a: EventId, b: EventId| #[trigger] self.slot_map().contains_key(a) && #[trigger] self.slot_map().contains_key(b)
                && self.slot_map()[a] == self.slot_map()[b] implies a == b by {
                if a != b {
                    self.lemma_slots_distinct(a, b);
                }
            }
        }
        if slot >= self.slots.len() {
            proof {
                if exists|id: EventId| #[trigger] self.slot_map().contains_key(id) && self.slot_map()[id] == slot {
                    let id = choose|id: EventId| #[trigger] self.slot_map().contains_key(id) && self.slot_map()[id] == slot;
                    assert(self.index@.contains_key(id));
                }
            }
            return None;
        }
        match &self.slots[slot] {
            Slot::Occupied { event } => {
                proof {
                    assert(self.slots@[slot as int] is Occupied);
                    assert(self.index@.contains_key(event.id));
                    assert(self.slot_map().contains_key(event.id) && self.slot_map()[event.id] == slot);
                }
                Some(&**event)
            },
            Slot::Free { .. } => {
                proof {
                    if exists|id: EventId| #[trigger] self.slot_map().contains_key(id) && self.slot_map()[id] == slot {
                        let id = choose|id: EventId| #[trigger] self.slot_map().contains_key(id) && self.slot_map()[id] == slot;
                        assert(self.index@.contains_key(id));
                    }
                }
                None
            },
        }
    }

    /// Remove the event with id `event_id`; its slot goes to the front of the
    /// free list. Returns the removed event, or `None` when it is not stored.
    #[verifier::rlimit(60)]
    #[verifier::spinoff_prover]
    pub fn remove(&mut self, event_id: &EventId) -> (r: Option<Event>)
        requires
            old(self).wf(),
        ensures
            final(self).wf(),
            final(self).initial_cap() == old(self).initial_cap(),
            final(self).max_cap() == old(self).max_cap(),
            final(self).slot_count() == old(self).slot_count(),
            final(self).growths() == old(self).growths(),
            r.is_some() == old(self).events().contains_key(*event_id),
            r matches Some(e) ==> {
                &&& e@ == old(self).events()[*event_id]
                &&& final(self).events() == old(self).events().remove(*event_id)
                &&& final(self).slot_map() == old(self).slot_map().remove(*event_id)
                &&& final(self).free_slots() == seq![old(self).slot_map()[*event_id]] + old(
                    self,
                ).free_slots()
            },
            r is None ==> final(self).events() == old(self).events() && final(self).slot_map() == old(
                self,
            ).slot_map() && final(self).free_slots() == old(self).free_slots(),
    {
        let ghost old_index = self.index@;
        let ghost before = self.slots@;
        let ghost fl = self.free_list@;
        proof {
            self.index.lemma_entries();
        }
        let slot_idx = match self.index.remove(event_id) {
            Some(i) => i,
            None => {
                proof {
                    assert(self.index@ =~= old_index);
                    assert(self.events() =~= old(self).events());
                }
                return None;
            },
        };
        proof {
            lemma_index_slot(before, old_index, fl, *event_id);
            assert(old_index.dom().remove(*event_id).len() + 1 == old_index.dom().len());
        }
        let mut old_slot = Slot::Free { next_free: self.free_head };
        std::mem::swap(&mut old_slot, &mut self.slots[slot_idx]);
        self.free_head = Some(slot_idx);
        self.occupied_count = self.occupied_count - 1;
        let ghost nfl = seq![slot_idx].add(fl);
        self.free_list = Ghost(nfl);
        proof {
            assert(self.index@ == old_index.remove(*event_id));
            assert(self.slots@ == before.update(
                slot_idx as int,
                Slot::Free {
                    next_free: if fl.len() > 0 {
                        Some(fl[0])
                    } else {
                        None
                    },
                },
            ));
            lemma_free_slot(before, old_index, fl, *event_id, self.slots@);
            assert(self.index@.len() + 1 == old_index.len()) by {
                self.index.lemma_entries();
                old(self).index.lemma_entries();
                assert(old_index.dom() =~= self.index@.dom().insert(*event_id));
            }
            assert(self.events() =~= old(self).events().remove(*event_id)) by {
                assert forall|id: EventId| #[trigger] self.index@.contains_key(id) implies self.slots@[self.index@[id] as int]
                    == before[old_index[id] as int] by {
                    assert(old_index.contains_key(id) && id != *event_id);
                    lemma_index_slot(before, old_index, fl, id);
                    assert(old_index[id] != slot_idx);
                }
            }
        }
        match old_slot {
            Slot::Occupied { event } => Some(*event),
            Slot::Free { .. } => None,
        }
    }

    /// Whether an event with id `event_id` is stored.
    pub fn contains(&self, event_id: &EventId) -> (r: bool)
        requires
            self.wf(),
        ensures
            r == self.events().contains_key(*event_id),
    {
        self.index.contains_key(event_id)
    }

    /// Number of stored events.
    pub fn len(&self) -> (r: usize)
        requires
            self.wf(),
        ensures
            r == self.events().len(),
    {
        proof {
            assert(self.events().dom() =~= self.index@.dom());
        }
        self.occupied_count
    }

    /// Whether no event is stored.
    pub fn is_empty(&self) -> (r: bool)
        requires
            self.wf(),
        ensures
            r == (self.events().len() == 0),
    {
        proof {
            assert(self.events().dom() =~= self.index@.dom());
        }
        self.occupied_count == 0
    }

    /// Number of slots, free and occupied.
    pub fn capacity(&self) -> (r: usize)
        requires
            self.wf(),
        ensures
            r == self.slot_count(),
    {
        self.slots.len()
    }

    /// Number of free slots.
    pub fn free_count(&self) -> (r: usize)
        requires
            self.wf(),
        ensures
            r == self.free_slots().len(),
            r == self.slot_count() - self.events().len(),
    {
        proof {
            assert(self.events().dom() =~= self.index@.dom());
        }
        self.slots.len() - self.occupied_count
    }

    /// The slot of the event with id `event_id`.
    pub fn slot_of(&self, event_id: &EventId) -> (r: Option<usize>)
        requires
            self.wf(),
        ensures
            r.is_some() == self.slot_map().contains_key(*event_id),
            r matches Some(s) ==> s == self.slot_map()[*event_id],
    {
        match self.index.get(event_id) {
            Some(s) => Some(*s),
            None => None,
        }
    }

    /// Occupancy figures.
    pub fn stats(&self) -> (r: EventPoolStats)
        requires
            self.wf(),
        ensures
            r.total_capacity == self.slot_count(),
            r.occupied == self.events().len(),
            r.free == self.free_slots().len(),
            r.growth_count == self.growths(),
    {
        proof {
            assert(self.events().dom() =~= self.index@.dom());
        }
        EventPoolStats {
            total_capacity: self.slots.len(),
            occupied: self.occupied_count,
            free: self.slots.len() - self.occupied_count,
            growth_count: self.growth_count,
        }
    }

    /// Whether a free slot is available, so the next insertion will not grow
    /// the pool.
    pub fn is_at_steady_state(&self) -> (r: bool)
        requires
            self.wf(),
        ensures
            r == (self.free_slots().len() > 0),
    {
        self.free_head.is_some()
    }

    /// The number of stored events equals the number of their slots, and the
    /// free slots and the occupied slots together make up the pool.
    pub proof fn lemma_occupancy(&self)
        requires
            self.wf(),
        ensures
            self.events().dom() == self.slot_map().dom(),
            self.events().dom().finite(),
            self.events().len() + self.free_slots().len() == self.slot_count(),
            self.slot_count() <= self.max_cap(),
            self.max_cap() <= usize::MAX,
            self.free_slots().no_duplicates(),
            forall|i: int| 0 <= i < self.free_slots().len() ==> #[trigger] self.free_slots()[i] < self.slot_count(),
    {
        reveal(layout_ok);
        assert(self.events().dom() =~= self.index@.dom());
        self.index.lemma_entries();
    }
}

impl Default for EventPool {
    fn default() -> (r: Self)
        ensures
            r.wf(),
            r.events() == Map::<EventId, EventView>::empty(),
            r.slot_count() == 1024,
            r.max_cap() == 1_000_000,
    {
        Self::new(1024, 1_000_000)
    }
}

} // verus!
