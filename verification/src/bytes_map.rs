//! A finite map keyed by byte strings.
//!
//! Named replicated values (counters, sets, registers) are keyed by the
//! bytes of their names. `BytesMap` stores the entries in a vector with no
//! two keys holding the same bytes and exposes the contents as a `Map` from
//! byte sequences.
use vstd::prelude::*;

verus! {

/// Whether two byte strings are equal.
pub fn bytes_eq(a: &[u8], b: &[u8]) -> (r: bool)
    ensures
        r == (a@ == b@),
{
    if a.len() != b.len() {
        return false;
    }
    let mut i: usize = 0;
    while i < a.len()
        invariant
            i <= a@.len(),
            a@.len() == b@.len(),
            forall|j: int| 0 <= j < i ==> a@[j] == b@[j],
        decreases a@.len() - i,
    {
        if a[i] != b[i] {
            return false;
        }
        i = i + 1;
    }
    proof {
        assert(a@ =~= b@);
    }
    true
}

/// A copy of a byte string.
pub fn bytes_copy(a: &[u8]) -> (r: Vec<u8>)
    ensures
        r@ == a@,
{
    let mut r: Vec<u8> = Vec::new();
    let mut i: usize = 0;
    while i < a.len()
        invariant
            i <= a@.len(),
            r@ == a@.subrange(0, i as int),
        decreases a@.len() - i,
    {
        r.push(a[i]);
        i = i + 1;
        proof {
            assert(r@ =~= a@.subrange(0, i as int));
        }
    }
    proof {
        assert(r@ =~= a@);
    }
    r
}

/// A finite map stored as a vector of `(key, value)` entries, no two keys
/// with the same bytes. Entries keep their insertion order except after a
/// removal, which moves the last entry into the freed position.
pub struct BytesMap<V> {
    entries: Vec<(Vec<u8>, V)>,
    contents: Ghost<Map<Seq<u8>, V>>,
}

impl<V> View for BytesMap<V> {
    type V = Map<Seq<u8>, V>;

    closed spec fn view(&self) -> Map<Seq<u8>, V> {
        self.contents@
    }
}

impl<V> BytesMap<V> {
    /// The entries in storage order.
    pub closed spec fn entry_seq(&self) -> Seq<(Vec<u8>, V)> {
        self.entries@
    }

    /// The keys in storage order.
    pub open spec fn key_seq(&self) -> Seq<Seq<u8>> {
        self.entry_seq().map_values(|e: (Vec<u8>, V)| e.0@)
    }

    /// Internal consistency between the entries and the map they stand for.
    pub closed spec fn wf(&self) -> bool {
        &&& forall|i: int|
            0 <= i < self.entries@.len() ==> #[trigger] self.contents@.contains_key(
                self.entries@[i].0@,
            ) && self.contents@[self.entries@[i].0@] == self.entries@[i].1
        &&& forall|k: Seq<u8>|
            #[trigger] self.contents@.contains_key(k) ==> exists|i: int|
                0 <= i < self.entries@.len() && #[trigger] self.entries@[i].0@ == k
        &&& forall|i: int, j: int|
            0 <= i < self.entries@.len() && 0 <= j < self.entries@.len() && i != j
                ==> #[trigger] self.entries@[i].0@ != #[trigger] self.entries@[j].0@
    }

    /// What `wf` gives a caller: the entries are the map's contents, each key once.
    pub proof fn lemma_entries(&self)
        requires
            self.wf(),
        ensures
            forall|i: int|
                0 <= i < self.entry_seq().len() ==> #[trigger] self@.contains_key(
                    self.entry_seq()[i].0@,
                ) && self@[self.entry_seq()[i].0@] == self.entry_seq()[i].1,
            forall|k: Seq<u8>|
                #[trigger] self@.contains_key(k) ==> exists|i: int|
                    0 <= i < self.entry_seq().len() && #[trigger] self.entry_seq()[i].0@ == k,
            forall|i: int, j: int|
                0 <= i < self.entry_seq().len() && 0 <= j < self.entry_seq().len() && i != j
                    ==> #[trigger] self.entry_seq()[i].0@ != #[trigger] self.entry_seq()[j].0@,
            self@.dom() =~= self.key_seq().to_set(),
            self@.dom().finite(),
            self@.dom().len() == self.entry_seq().len(),
    {
        let ks = self.key_seq();
        assert forall|k: Seq<u8>| self@.dom().contains(k) <==> ks.to_set().contains(k) by {
            if self@.dom().contains(k) {
                let i = choose|i: int| 0 <= i < self.entries@.len() && self.entries@[i].0@ == k;
                assert(ks[i] == k);
            }
            if ks.to_set().contains(k) {
                let i = choose|i: int| 0 <= i < ks.len() && ks[i] == k;
                assert(self.entries@[i].0@ == k);
            }
        }
        assert(ks.no_duplicates()) by {
            assert forall|i: int, j: int|
                0 <= i < ks.len() && 0 <= j < ks.len() && i != j implies ks[i] != ks[j] by {
                assert(self.entries@[i].0@ != self.entries@[j].0@);
            }
        }
        ks.unique_seq_to_set();
        assert(self@.dom() =~= ks.to_set());
        vstd::seq_lib::seq_to_set_is_finite(ks);
    }

    /// An empty map.
    pub fn new() -> (r: Self)
        ensures
            r.wf(),
            r@ == Map::<Seq<u8>, V>::empty(),
    {
        BytesMap { entries: Vec::new(), contents: Ghost(Map::empty()) }
    }

    /// Number of entries.
    pub fn len(&self) -> (r: usize)
        requires
            self.wf(),
        ensures
            r == self@.len(),
            r == self.entry_seq().len(),
    {
        proof {
            self.lemma_entries();
        }
        self.entries.len()
    }

    /// Position of `k` in the entries, if present.
    pub fn find(&self, k: &[u8]) -> (r: Option<usize>)
        requires
            self.wf(),
        ensures
            r.is_none() == !self@.contains_key(k@),
            r matches Some(i) ==> i < self.entry_seq().len() && self.entry_seq()[i as int].0@ == k@,
    {
        let mut i: usize = 0;
        while i < self.entries.len()
            invariant
                self.wf(),
                i <= self.entries@.len(),
                forall|j: int| 0 <= j < i ==> self.entries@[j].0@ != k@,
            decreases self.entries@.len() - i,
        {
            if bytes_eq(self.entries[i].0.as_slice(), k) {
                return Some(i);
            }
            i = i + 1;
        }
        None
    }

    /// Whether `k` has an entry.
    pub fn contains_key(&self, k: &[u8]) -> (r: bool)
        requires
            self.wf(),
        ensures
            r == self@.contains_key(k@),
    {
        self.find(k).is_some()
    }

    /// The value stored for `k`.
    pub fn get(&self, k: &[u8]) -> (r: Option<&V>)
        requires
            self.wf(),
        ensures
            r.is_some() == self@.contains_key(k@),
            r matches Some(v) ==> *v == self@[k@],
    {
        match self.find(k) {
            Some(i) => Some(&self.entries[i].1),
            None => None,
        }
    }

    /// The key stored at position `i`.
    pub fn key_at(&self, i: usize) -> (r: &Vec<u8>)
        requires
            self.wf(),
            i < self.entry_seq().len(),
        ensures
            r@ == self.entry_seq()[i as int].0@,
    {
        &self.entries[i].0
    }

    /// The value stored at position `i`.
    pub fn value_at(&self, i: usize) -> (r: &V)
        requires
            self.wf(),
            i < self.entry_seq().len(),
        ensures
            *r == self.entry_seq()[i as int].1,
    {
        &self.entries[i].1
    }

    /// Insert or replace the value for `k`; returns the previous value.
    pub fn insert(&mut self, k: Vec<u8>, v: V) -> (r: Option<V>)
        requires
            old(self).wf(),
        ensures
            final(self).wf(),
            final(self)@ == old(self)@.insert(k@, v),
            r.is_some() == old(self)@.contains_key(k@),
            r matches Some(ov) ==> ov == old(self)@[k@],
    {
        match self.find(k.as_slice()) {
            Some(i) => {
                let ghost old_entries = self.entries@;
                let ghost kk = k@;
                let mut pair = (k, v);
                std::mem::swap(&mut pair, &mut self.entries[i]);
                proof {
                    self.contents@ = self.contents@.insert(kk, self.entries@[i as int].1);
                    assert(self.entries@ == old_entries.update(i as int, self.entries@[i as int]));
                    assert forall|kx: Seq<u8>| #[trigger] self.contents@.contains_key(kx) implies exists|
                        j: int,
                    |
                        0 <= j < self.entries@.len() && #[trigger] self.entries@[j].0@ == kx by {
                        if kx == kk {
                            assert(self.entries@[i as int].0@ == kx);
                        } else {
                            let j = choose|j: int|
                                0 <= j < old_entries.len() && old_entries[j].0@ == kx;
                            assert(self.entries@[j].0@ == kx);
                        }
                    }
                }
                Some(pair.1)
            },
            None => {
                let ghost kk = k@;
                let ghost vv = v;
                self.entries.push((k, v));
                proof {
                    self.contents@ = self.contents@.insert(kk, vv);
                    assert forall|kx: Seq<u8>| #[trigger] self.contents@.contains_key(kx) implies exists|
                        j: int,
                    |
                        0 <= j < self.entries@.len() && #[trigger] self.entries@[j].0@ == kx by {
                        if kx == kk {
                            assert(self.entries@[self.entries@.len() - 1].0@ == kx);
                        } else {
                            let j = choose|j: int|
                                0 <= j < old(self).entries@.len() && old(self).entries@[j].0@
                                    == kx;
                            assert(self.entries@[j].0@ == kx);
                        }
                    }
                }
                None
            },
        }
    }

    /// Remove the entry for `k`; returns the removed value.
    pub fn remove(&mut self, k: &[u8]) -> (r: Option<V>)
        requires
            old(self).wf(),
        ensures
            final(self).wf(),
            final(self)@ == old(self)@.remove(k@),
            r.is_some() == old(self)@.contains_key(k@),
            r matches Some(ov) ==> ov == old(self)@[k@],
    {
        match self.find(k) {
            Some(i) => {
                let ghost old_entries = self.entries@;
                let ghost n = old_entries.len();
                let pair = self.entries.swap_remove(i);
                proof {
                    self.contents@ = self.contents@.remove(k@);
                    assert forall|j: int| 0 <= j < self.entries@.len() implies #[trigger] (
                    self.entries@[j]) == if j == i {
                        old_entries[n - 1]
                    } else {
                        old_entries[j]
                    } by {}
                    assert forall|j: int|
                        0 <= j < self.entries@.len() implies #[trigger] self.contents@.contains_key(
                        self.entries@[j].0@,
                    ) && self.contents@[self.entries@[j].0@] == self.entries@[j].1 by {
                        if j == i {
                            assert(old_entries[n - 1].0@ != old_entries[i as int].0@);
                        } else {
                            assert(old_entries[j].0@ != old_entries[i as int].0@);
                        }
                    }
                    assert forall|kx: Seq<u8>| #[trigger] self.contents@.contains_key(kx) implies exists|
                        j: int,
                    |
                        0 <= j < self.entries@.len() && #[trigger] self.entries@[j].0@ == kx by {
                        let j = choose|j: int| 0 <= j < n && old_entries[j].0@ == kx;
                        if j == n - 1 {
                            assert(self.entries@[i as int].0@ == kx);
                        } else {
                            assert(self.entries@[j].0@ == kx);
                        }
                    }
                    assert forall|a: int, b: int|
                        0 <= a < self.entries@.len() && 0 <= b < self.entries@.len() && a
                            != b implies #[trigger] self.entries@[a].0@
                        != #[trigger] self.entries@[b].0@ by {
                        let oa = if a == i {
                            n - 1
                        } else {
                            a
                        };
                        let ob = if b == i {
                            n - 1
                        } else {
                            b
                        };
                        assert(old_entries[oa].0@ != old_entries[ob].0@);
                    }
                }
                Some(pair.1)
            },
            None => {
                proof {
                    assert(self.contents@ =~= self.contents@.remove(k@));
                }
                None
            },
        }
    }
}

} // verus!
