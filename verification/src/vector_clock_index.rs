//! An index of events by creator and sequence number.
//!
//! For each creator the index keeps a vector whose entry at a sequence number
//! is the pool slot of that event, and a reverse vector from slots to event
//! ids. A lookup by `(creator, sequence)` is two vector accesses.
use vstd::prelude::*;
use crate::ids::EventId;
use crate::ids::NodeId;
use crate::vec_map::VecMap;
use crate::map_total::map_total;
use crate::map_total::entries_total;
use crate::map_total::lemma_entries_total;

verus! {

/// The largest sequence number the index accepts.
pub const MAX_SEQUENCE: u64 = 1_000_000;

/// Errors of index operations.
#[derive(Debug, Clone, Copy, PartialEq, Eq)]
pub enum VectorClockIndexError {
    /// The sequence number exceeds [`MAX_SEQUENCE`].
    SequenceTooLarge {
        /// The creator whose sequence was too large.
        creator: NodeId,
        /// The sequence number that was too large.
        sequence: u64,
        /// The largest accepted sequence number.
        max: u64,
    },
}

/// The message of a vector clock index error.
pub open spec fn index_error_text(e: VectorClockIndexError) -> Seq<char> {
    "sequence number exceeds maximum"@
}

impl VectorClockIndexError {
    /// A human-readable description of the error.
    pub fn message(&self) -> (r: String)
        ensures
            r@ == index_error_text(*self),
    {
        "sequence number exceeds maximum".to_owned()
    }
}

/// Figures about the index.
#[derive(Debug, Clone, Copy, PartialEq, Eq)]
pub struct VectorClockIndexStats {
    /// Number of distinct creators.
    pub creator_count: usize,
    /// Number of indexed (creator, sequence) entries.
    pub total_entries: usize,
    /// Number of slots mapped back to an event id.
    pub slot_mappings: usize,
    /// Approximate size of the index in bytes.
    pub approx_memory_bytes: usize,
}

/// The forward vector of creator `c` (empty when there is none).
pub open spec fn fwd_at(f: Map<NodeId, Seq<Option<usize>>>, c: NodeId) -> Seq<Option<usize>> {
    if f.contains_key(c) {
        f[c]
    } else {
        Seq::empty()
    }
}

/// `s` extended with `None` to at least `n` entries.
pub open spec fn padded<T>(s: Seq<Option<T>>, n: nat) -> Seq<Option<T>> {
    if s.len() >= n {
        s
    } else {
        s + Seq::new((n - s.len()) as nat, |i: int| None::<T>)
    }
}

/// The slot indexed for `(c, seq)`.
pub open spec fn slot_spec(f: Map<NodeId, Seq<Option<usize>>>, c: NodeId, seq: u64) -> Option<usize> {
    if seq < fwd_at(f, c).len() {
        fwd_at(f, c)[seq as int]
    } else {
        None
    }
}

/// The event id and slot indexed for `(c, seq)`, when the slot maps back to
/// an event.
pub open spec fn resolve_spec(
    f: Map<NodeId, Seq<Option<usize>>>,
    slots: Seq<Option<EventId>>,
    c: NodeId,
    seq: u64,
) -> Option<(EventId, usize)> {
    match slot_spec(f, c, seq) {
        Some(s) => if s < slots.len() {
            match slots[s as int] {
                Some(id) => Some((id, s)),
                None => None,
            }
        } else {
            None
        },
        None => None,
    }
}

/// Number of `Some` entries.
pub open spec fn some_count<T>(s: Seq<Option<T>>) -> nat
    decreases s.len(),
{
    if s.len() == 0 {
        0
    } else {
        some_count(s.drop_last()) + if s.last() is Some {
            1nat
        } else {
            0nat
        }
    }
}

/// The largest index holding `Some`, if any.
pub open spec fn last_some(s: Seq<Option<usize>>) -> Option<nat>
    decreases s.len(),
{
    if s.len() == 0 {
        None
    } else if s.last() is Some {
        Some((s.len() - 1) as nat)
    } else {
        last_some(s.drop_last())
    }
}

/// An index by `(creator, sequence)` with a reverse map from slots to ids.
pub struct VectorClockIndex {
    creator_index: VecMap<NodeId, Vec<Option<usize>>>,
    slot_to_id: Vec<Option<EventId>>,
}

proof fn lemma_some_count_le<T>(s: Seq<Option<T>>)
    ensures
        some_count(s) <= s.len(),
    decreases s.len(),
{
    if s.len() > 0 {
        lemma_some_count_le(s.drop_last());
    }
}

/// Count the `Some` entries of a vector.
fn count_some<T>(v: &Vec<Option<T>>) -> (r: usize)
    ensures
        r == some_count(v@),
{
    let mut n: usize = 0;
    let mut i: usize = 0;
    while i < v.len()
        invariant
            i <= v@.len(),
            n == some_count(v@.take(i as int)),
            n <= i,
        decreases v@.len() - i,
    {
        proof {
            assert(v@.take(i + 1).drop_last() =~= v@.take(i as int));
        }
        if v[i].is_some() {
            n = n + 1;
        }
        i = i + 1;
    }
    proof {
        assert(v@.take(v@.len() as int) =~= v@);
    }
    n
}

/// `a * k`, or `usize::MAX` when that does not fit.
fn sat_mul(a: usize, k: usize) -> (r: usize)
    ensures
        a * k <= usize::MAX ==> r == a * k,
        a * k > usize::MAX ==> r == usize::MAX,
{
    match a.checked_mul(k) {
        Some(x) => x,
        None => usize::MAX,
    }
}

/// Extend `v` with `None` to at least `n` entries.
fn pad_to<T>(v: &mut Vec<Option<T>>, n: usize)
    ensures
        final(v)@ == padded(old(v)@, n as nat),
{
    let ghost start = v@;
    while v.len() < n
        invariant
            start.len() <= v@.len() <= if start.len() >= n {
                start.len()
            } else {
                n as nat
            },
            v@ == start + Seq::new((v@.len() - start.len()) as nat, |i: int| None::<T>),
        decreases n - v@.len(),
    {
        let ghost prev = v@;
        v.push(None);
        proof {
            assert(v@ =~= start + Seq::new((v@.len() - start.len()) as nat, |i: int| None::<T>));
        }
    }
    proof {
        if start.len() >= n {
            assert(v@ =~= start);
        }
    }
}

impl VectorClockIndex {
    /// The forward index: each creator's slots by sequence number.
    pub closed spec fn forward(&self) -> Map<NodeId, Seq<Option<usize>>> {
        self.creator_index@.map_values(|v: Vec<Option<usize>>| v@)
    }

    /// The reverse index: the event id of each slot.
    pub closed spec fn slots(&self) -> Seq<Option<EventId>> {
        self.slot_to_id@
    }

    /// Internal consistency of the creator map.
    pub closed spec fn wf(&self) -> bool {
        self.creator_index.wf()
    }

    /// An empty index.
    pub fn new() -> (r: Self)
        ensures
            r.wf(),
            r.forward() == Map::<NodeId, Seq<Option<usize>>>::empty(),
            r.slots() == Seq::<Option<EventId>>::empty(),
    {
        let r = VectorClockIndex { creator_index: VecMap::new(), slot_to_id: Vec::new() };
        proof {
            assert(r.forward() =~= Map::<NodeId, Seq<Option<usize>>>::empty());
        }
        r
    }

    /// An empty index; the expected sizes are only a hint.
    pub fn with_capacity(expected_creators: usize, expected_events: usize) -> (r: Self)
        ensures
            r.wf(),
            r.forward() == Map::<NodeId, Seq<Option<usize>>>::empty(),
            r.slots() == Seq::<Option<EventId>>::empty(),
    {
        Self::new()
    }

    /// Index the event `event_id` of `creator` at `sequence`, stored in `slot`.
    ///
    /// Fails with `SequenceTooLarge`, leaving the index unchanged, when
    /// `sequence` exceeds [`MAX_SEQUENCE`].
    pub fn index_event(&mut self, creator: &NodeId, sequence: u64, slot: usize, event_id: EventId) -> (r: Result<(), VectorClockIndexError>)
        requires
            old(self).wf(),
            slot < usize::MAX,
        ensures
            final(self).wf(),
            sequence > MAX_SEQUENCE ==> r == Err::<(), VectorClockIndexError>(
                VectorClockIndexError::SequenceTooLarge { creator: *creator, sequence, max: MAX_SEQUENCE },
            ) && final(self).forward() == old(self).forward() && final(self).slots() == old(self).slots(),
            sequence <= MAX_SEQUENCE ==> {
                &&& r is Ok
                &&& final(self).forward() == old(self).forward().insert(
                    *creator,
                    padded(fwd_at(old(self).forward(), *creator), (sequence + 1) as nat).update(
                        sequence as int,
                        Some(slot),
                    ),
                )
                &&& final(self).slots() == padded(old(self).slots(), (slot + 1) as nat).update(
                    slot as int,
                    Some(event_id),
                )
            },
    {
        if sequence > MAX_SEQUENCE {
            return Err(
                VectorClockIndexError::SequenceTooLarge { creator: *creator, sequence, max: MAX_SEQUENCE },
            );
        }
        let seq_idx = sequence as usize;
        let ghost f0 = self.forward();
        let mut v = match self.creator_index.remove(creator) {
            Some(v) => v,
            None => Vec::new(),
        };
        assert(v@ == fwd_at(f0, *creator));
        pad_to(&mut v, seq_idx + 1);
        v.set(seq_idx, Some(slot));
        self.creator_index.insert(*creator, v);
        pad_to(&mut self.slot_to_id, slot + 1);
        self.slot_to_id.set(slot, Some(event_id));
        proof {
            assert(self.forward() =~= f0.insert(
                *creator,
                padded(fwd_at(f0, *creator), (sequence + 1) as nat).update(sequence as int, Some(slot)),
            ));
        }
        Ok(())
    }

    /// The event id and slot indexed for `(creator, sequence)`.
    pub fn resolve_parent(&self, creator: &NodeId, sequence: u64) -> (r: Option<(EventId, usize)>)
        requires
            self.wf(),
        ensures
            r == resolve_spec(self.forward(), self.slots(), *creator, sequence),
    {
        match self.resolve_slot(creator, sequence) {
            Some(slot) => {
                if slot < self.slot_to_id.len() {
                    match self.slot_to_id[slot] {
                        Some(id) => Some((id, slot)),
                        None => None,
                    }
                } else {
                    None
                }
            },
            None => None,
        }
    }

    /// The slot indexed for `(creator, sequence)`.
    pub fn resolve_slot(&self, creator: &NodeId, sequence: u64) -> (r: Option<usize>)
        requires
            self.wf(),
        ensures
            r == slot_spec(self.forward(), *creator, sequence),
    {
        match self.creator_index.get(creator) {
            Some(v) => {
                if sequence < v.len() as u64 {
                    v[sequence as usize]
                } else {
                    None
                }
            },
            None => None,
        }
    }

    /// Clear the reverse mapping of `slot`; returns the event id it held.
    /// The forward entry that points to the slot is left in place; it no
    /// longer resolves.
    pub fn remove_event(&mut self, slot: usize) -> (r: Option<EventId>)
        requires
            old(self).wf(),
        ensures
            final(self).wf(),
            final(self).forward() == old(self).forward(),
            slot >= old(self).slots().len() ==> r is None && final(self).slots() == old(self).slots(),
            slot < old(self).slots().len() ==> r == old(self).slots()[slot as int] && final(self).slots()
                == old(self).slots().update(slot as int, None),
    {
        if slot >= self.slot_to_id.len() {
            return None;
        }
        let id = self.slot_to_id[slot];
        self.slot_to_id.set(slot, None);
        id
    }

    /// Clear the entry of `(creator, sequence)` and the reverse mapping of
    /// its slot; returns the slot.
    pub fn remove_by_creator_sequence(&mut self, creator: &NodeId, sequence: u64) -> (r: Option<usize>)
        requires
            old(self).wf(),
        ensures
            final(self).wf(),
            r == slot_spec(old(self).forward(), *creator, sequence),
            r is None ==> final(self).forward() == old(self).forward() && final(self).slots() == old(
                self,
            ).slots(),
            r matches Some(s) ==> {
                &&& final(self).forward() == old(self).forward().insert(
                    *creator,
                    old(self).forward()[*creator].update(sequence as int, None),
                )
                &&& final(self).slots() == if s < old(self).slots().len() {
                    old(self).slots().update(s as int, None)
                } else {
                    old(self).slots()
                }
            },
    {
        let found = self.resolve_slot(creator, sequence);
        let slot = match found {
            Some(s) => s,
            None => {
                return None;
            },
        };
        let ghost f0 = self.forward();
        let mut v = match self.creator_index.remove(creator) {
            Some(v) => v,
            None => Vec::new(),
        };
        assert(v@ == f0[*creator]);
        if sequence < v.len() as u64 {
            v.set(sequence as usize, None);
        }
        self.creator_index.insert(*creator, v);
        if slot < self.slot_to_id.len() {
            self.slot_to_id.set(slot, None);
        }
        proof {
            assert(self.forward() =~= f0.insert(*creator, f0[*creator].update(sequence as int, None)));
        }
        Some(slot)
    }

    /// Whether `(creator, sequence)` resolves to an event.
    pub fn contains(&self, creator: &NodeId, sequence: u64) -> (r: bool)
        requires
            self.wf(),
        ensures
            r == resolve_spec(self.forward(), self.slots(), *creator, sequence) is Some,
    {
        self.resolve_parent(creator, sequence).is_some()
    }

    /// Number of distinct creators.
    pub fn creator_count(&self) -> (r: usize)
        requires
            self.wf(),
        ensures
            r == self.forward().len(),
    {
        proof {
            assert(self.forward().dom() =~= self.creator_index@.dom());
        }
        self.creator_index.len()
    }

    /// The largest sequence number indexed for `creator`.
    pub fn max_sequence(&self, creator: &NodeId) -> (r: Option<u64>)
        requires
            self.wf(),
        ensures
            r == match last_some(fwd_at(self.forward(), *creator)) {
                Some(i) => Some(i as u64),
                None => None::<u64>,
            },
    {
        match self.creator_index.get(creator) {
            Some(v) => {
                let mut i: usize = v.len();
                proof {
                    assert(v@.take(v@.len() as int) =~= v@);
                    assert(fwd_at(self.forward(), *creator) == v@);
                }
                while i > 0
                    invariant
                        i <= v@.len(),
                        fwd_at(self.forward(), *creator) == v@,
                        last_some(v@) == last_some(v@.take(i as int)),
                    decreases i,
                {
                    proof {
                        assert(v@.take(i as int).drop_last() =~= v@.take(i - 1));
                        assert(v@.take(i as int).last() == v@[i - 1]);
                    }
                    if v[i - 1].is_some() {
                        proof {
                            assert(fwd_at(self.forward(), *creator) == v@);
                            assert(last_some(v@) == Some((i - 1) as nat));
                        }
                        return Some((i - 1) as u64);
                    }
                    i = i - 1;
                }
                proof {
                    assert(v@.take(0) =~= Seq::<Option<usize>>::empty());
                }
                None
            },
            None => None,
        }
    }

    /// Figures about the index. Entries are counted exactly when their
    /// number fits in `usize`; the size estimate counts 56 bytes per creator,
    /// 16 per forward entry and 33 per slot.
    pub fn stats(&self) -> (r: VectorClockIndexStats)
        requires
            self.wf(),
        ensures
            r.creator_count == self.forward().len(),
            map_total(self.forward().map_values(|s: Seq<Option<usize>>| some_count(s) as u64))
                <= usize::MAX ==> r.total_entries == map_total(
                self.forward().map_values(|s: Seq<Option<usize>>| some_count(s) as u64),
            ),
            r.slot_mappings == some_count(self.slots()),
    {
        proof {
            self.creator_index.lemma_entries();
            assert(self.forward().dom() =~= self.creator_index@.dom());
        }
        let n = self.creator_index.len();
        let ghost m = self.forward().map_values(|s: Seq<Option<usize>>| some_count(s) as u64);
        let ghost es = Seq::new(
            n as nat,
            |j: int|
                (
                    self.creator_index.entry_seq()[j].0,
                    some_count(self.creator_index.entry_seq()[j].1@) as u64,
                ),
        );
        let mut total: usize = 0;
        let mut saturated = false;
        let mut bytes: usize = sat_mul(n, 56);
        let mut i: usize = 0;
        while i < n
            invariant
                n == self.creator_index.entry_seq().len(),
                self.wf(),
                i <= n,
                es.len() == n,
                forall|j: int| 0 <= j < n ==> #[trigger] es[j] == (
                    self.creator_index.entry_seq()[j].0,
                    some_count(self.creator_index.entry_seq()[j].1@) as u64,
                ),
                !saturated ==> total == entries_total(es.take(i as int)),
                saturated ==> entries_total(es.take(i as int)) > usize::MAX,
            decreases n - i,
        {
            let v = self.creator_index.value_at(i);
            let c = count_some(v);
            proof {
                lemma_some_count_le(v@);
                assert(es.take(i + 1).drop_last() =~= es.take(i as int));
                assert(es[i as int].1 == c);
                crate::vector_clock_index::lemma_entries_total_nonneg(es.take(i as int));
            }
            if !saturated {
                match total.checked_add(c) {
                    Some(t) => {
                        total = t;
                    },
                    None => {
                        saturated = true;
                        total = usize::MAX;
                    },
                }
            }
            bytes = bytes.saturating_add(sat_mul(v.len(), 16));
            i = i + 1;
        }
        proof {
            assert(es.take(n as int) =~= es);
            assert forall|j: int| 0 <= j < es.len() implies #[trigger] m.contains_key(es[j].0) && m[es[j].0]
                == es[j].1 by {
                assert(self.creator_index@.contains_key(self.creator_index.entry_seq()[j].0));
            }
            assert forall|k: NodeId| #[trigger] m.contains_key(k) implies exists|j: int|
                0 <= j < es.len() && es[j].0 == k by {
                let j = choose|j: int|
                    0 <= j < self.creator_index.entry_seq().len() && #[trigger] self.creator_index.entry_seq()[j].0
                        == k;
                assert(es[j].0 == k);
            }
            assert forall|a: int, b: int| 0 <= a < es.len() && 0 <= b < es.len() && a != b implies #[trigger] es[a].0
                != #[trigger] es[b].0 by {
                assert(self.creator_index.entry_seq()[a].0 != self.creator_index.entry_seq()[b].0);
            }
            lemma_entries_total(es, m);
        }
        let slot_mappings = count_some(&self.slot_to_id);
        bytes = bytes.saturating_add(sat_mul(self.slot_to_id.len(), 33));
        VectorClockIndexStats {
            creator_count: n,
            total_entries: total,
            slot_mappings,
            approx_memory_bytes: bytes,
        }
    }
}

proof fn lemma_entries_total_nonneg(s: Seq<(NodeId, u64)>)
    ensures
        entries_total(s) >= 0,
    decreases s.len(),
{
    if s.len() > 0 {
        lemma_entries_total_nonneg(s.drop_last());
    }
}

impl Default for VectorClockIndex {
    fn default() -> (r: Self)
        ensures
            r.wf(),
            r.forward() == Map::<NodeId, Seq<Option<usize>>>::empty(),
            r.slots() == Seq::<Option<EventId>>::empty(),
    {
        Self::new()
    }
}

} // verus!
