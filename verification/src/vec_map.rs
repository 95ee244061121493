//! A small association-list map keyed by identifiers.
//!
//! The consensus state is keyed by 32-byte identifiers (and pairs of them
//! with sequence numbers). `VecMap` stores the entries in a vector with no
//! duplicate keys and exposes the contents as a mathematical `Map`.
use vstd::prelude::*;

verus! {

/// Keys that can be compared and copied with a stated meaning.
pub trait MapKey: Sized {
    /// Equality of two keys.
    fn key_eq(&self, other: &Self) -> (r: bool)
        ensures
            r == (*self == *other),
    ;

    /// A copy of the key.
    fn key_clone(&self) -> (r: Self)
        ensures
            r == *self,
    ;
}

impl MapKey for [u8; 32] {
    fn key_eq(&self, other: &Self) -> (r: bool) {
        crate::ids::id_eq(self, other)
    }

    fn key_clone(&self) -> (r: Self) {
        *self
    }
}

impl MapKey for u64 {
    fn key_eq(&self, other: &Self) -> (r: bool) {
        *self == *other
    }

    fn key_clone(&self) -> (r: Self) {
        *self
    }
}

impl MapKey for ([u8; 32], u64) {
    fn key_eq(&self, other: &Self) -> (r: bool) {
        crate::ids::id_eq(&self.0, &other.0) && self.1 == other.1
    }

    fn key_clone(&self) -> (r: Self) {
        (self.0, self.1)
    }
}

/// Values that can be copied while keeping their view.
pub trait Duplicate: View + Sized {
    /// A copy with the same view.
    fn duplicate(&self) -> (r: Self)
        ensures
            r@ == self@,
    ;
}

impl Duplicate for Vec<u64> {
    fn duplicate(&self) -> (r: Self) {
        let mut r: Vec<u64> = Vec::new();
        let mut i: usize = 0;
        while i < self.len()
            invariant
                i <= self@.len(),
                r@ == self@.subrange(0, i as int),
            decreases self@.len() - i,
        {
            r.push(self[i]);
            i = i + 1;
            proof {
                assert(r@ =~= self@.subrange(0, i as int));
            }
        }
        proof {
            assert(r@ =~= self@);
        }
        r
    }
}

/// Copy a vector of duplicable values.
pub fn duplicate_vec<T: Duplicate>(v: &Vec<T>) -> (r: Vec<T>)
    ensures
        r@.len() == v@.len(),
        forall|i: int| 0 <= i < v@.len() ==> (#[trigger] r@[i])@ == v@[i]@,
{
    let mut r: Vec<T> = Vec::new();
    let mut i: usize = 0;
    while i < v.len()
        invariant
            i <= v@.len(),
            r@.len() == i,
            forall|j: int| 0 <= j < i ==> (#[trigger] r@[j])@ == v@[j]@,
        decreases v@.len() - i,
    {
        r.push(v[i].duplicate());
        i = i + 1;
    }
    r
}

/// A finite map stored as a vector of `(key, value)` entries without
/// duplicate keys. Entries keep their insertion order except after a
/// removal, which moves the last entry into the freed position.
#[verifier::reject_recursive_types(K)]
pub struct VecMap<K, V> {
    entries: Vec<(K, V)>,
    contents: Ghost<Map<K, V>>,
}

impl<K, V> View for VecMap<K, V> {
    type V = Map<K, V>;

    closed spec fn view(&self) -> Map<K, V> {
        self.contents@
    }
}

impl<K: MapKey, V> VecMap<K, V> {
    /// The entries in storage order.
    pub closed spec fn entry_seq(&self) -> Seq<(K, V)> {
        self.entries@
    }

    /// The keys in storage order.
    pub open spec fn key_seq(&self) -> Seq<K> {
        self.entry_seq().map_values(|e: (K, V)| e.0)
    }

    /// Internal consistency between the entries and the map they stand for.
    pub closed spec fn wf(&self) -> bool {
        &&& forall|i: int|
            0 <= i < self.entries@.len() ==> #[trigger] self.contents@.contains_key(
                self.entries@[i].0,
            ) && self.contents@[self.entries@[i].0] == self.entries@[i].1
        &&& forall|k: K|
            #[trigger] self.contents@.contains_key(k) ==> exists|i: int|
                0 <= i < self.entries@.len() && #[trigger] self.entries@[i].0 == k
        &&& forall|i: int, j: int|
            0 <= i < self.entries@.len() && 0 <= j < self.entries@.len() && i != j
                ==> #[trigger] self.entries@[i].0 != #[trigger] self.entries@[j].0
    }

    /// What `wf` gives a caller: the entries are the map's contents, each key once.
    pub proof fn lemma_entries(&self)
        requires
            self.wf(),
        ensures
            forall|i: int|
                0 <= i < self.entry_seq().len() ==> #[trigger] self@.contains_key(
                    self.entry_seq()[i].0,
                ) && self@[self.entry_seq()[i].0] == self.entry_seq()[i].1,
            forall|k: K|
                #[trigger] self@.contains_key(k) ==> exists|i: int|
                    0 <= i < self.entry_seq().len() && #[trigger] self.entry_seq()[i].0 == k,
            forall|i: int, j: int|
                0 <= i < self.entry_seq().len() && 0 <= j < self.entry_seq().len() && i != j
                    ==> #[trigger] self.entry_seq()[i].0 != #[trigger] self.entry_seq()[j].0,
            self@.dom() =~= self.key_seq().to_set(),
            self@.dom().finite(),
            self@.dom().len() == self.entry_seq().len(),
    {
        let ks = self.key_seq();
        assert forall|k: K| self@.dom().contains(k) <==> ks.to_set().contains(k) by {
            if self@.dom().contains(k) {
                let i = choose|i: int| 0 <= i < self.entries@.len() && self.entries@[i].0 == k;
                assert(ks[i] == k);
            }
            if ks.to_set().contains(k) {
                let i = choose|i: int| 0 <= i < ks.len() && ks[i] == k;
                assert(self.entries@[i].0 == k);
            }
        }
        assert(ks.no_duplicates()) by {
            assert forall|i: int, j: int|
                0 <= i < ks.len() && 0 <= j < ks.len() && i != j implies ks[i] != ks[j] by {
                assert(self.entries@[i].0 != self.entries@[j].0);
            }
        }
        ks.unique_seq_to_set();
        assert(self@.dom() =~= ks.to_set());
        vstd::seq_lib::seq_to_set_is_finite(ks);
    }

    /// An empty map.
    pub fn new() -> (r: Self)
        ensures
            r.wf(),
            r@ == Map::<K, V>::empty(),
    {
        VecMap { entries: Vec::new(), contents: Ghost(Map::empty()) }
    }

    /// Number of entries.
    pub fn len(&self) -> (r: usize)
        requires
            self.wf(),
        ensures
            r == self@.len(),
            r == self.entry_seq().len(),
    {
        proof {
            self.lemma_entries();
        }
        self.entries.len()
    }

    /// Position of `k` in the entries, if present.
    pub fn find(&self, k: &K) -> (r: Option<usize>)
        requires
            self.wf(),
        ensures
            r.is_none() == !self@.contains_key(*k),
            r matches Some(i) ==> i < self.entry_seq().len() && self.entry_seq()[i as int].0 == *k,
    {
        let mut i: usize = 0;
        while i < self.entries.len()
            invariant
                self.wf(),
                i <= self.entries@.len(),
                forall|j: int| 0 <= j < i ==> self.entries@[j].0 != *k,
            decreases self.entries@.len() - i,
        {
            if self.entries[i].0.key_eq(k) {
                return Some(i);
            }
            i = i + 1;
        }
        None
    }

    /// Whether `k` has an entry.
    pub fn contains_key(&self, k: &K) -> (r: bool)
        requires
            self.wf(),
        ensures
            r == self@.contains_key(*k),
    {
        self.find(k).is_some()
    }

    /// The value stored for `k`.
    pub fn get(&self, k: &K) -> (r: Option<&V>)
        requires
            self.wf(),
        ensures
            r.is_some() == self@.contains_key(*k),
            r matches Some(v) ==> *v == self@[*k],
    {
        match self.find(k) {
            Some(i) => Some(&self.entries[i].1),
            None => None,
        }
    }

    /// The key stored at position `i`.
    pub fn key_at(&self, i: usize) -> (r: &K)
        requires
            self.wf(),
            i < self.entry_seq().len(),
        ensures
            *r == self.entry_seq()[i as int].0,
    {
        &self.entries[i].0
    }

    /// The value stored at position `i`.
    pub fn value_at(&self, i: usize) -> (r: &V)
        requires
            self.wf(),
            i < self.entry_seq().len(),
        ensures
            *r == self.entry_seq()[i as int].1,
    {
        &self.entries[i].1
    }

    /// The keys, each once, in storage order.
    pub fn keys(&self) -> (r: Vec<K>)
        requires
            self.wf(),
        ensures
            r@ == self.key_seq(),
            r@.no_duplicates(),
            r@.to_set() == self@.dom(),
    {
        proof {
            self.lemma_entries();
        }
        let mut r: Vec<K> = Vec::new();
        let mut i: usize = 0;
        while i < self.entries.len()
            invariant
                self.wf(),
                i <= self.entries@.len(),
                r@ == self.key_seq().subrange(0, i as int),
            decreases self.entries@.len() - i,
        {
            r.push(self.entries[i].0.key_clone());
            i = i + 1;
            proof {
                assert(r@ =~= self.key_seq().subrange(0, i as int));
            }
        }
        proof {
            assert(r@ =~= self.key_seq());
            let ks = self.key_seq();
            assert forall|a: int, b: int| 0 <= a < ks.len() && 0 <= b < ks.len() && a != b implies ks[a] != ks[b] by {
                assert(self.entry_seq()[a].0 != self.entry_seq()[b].0);
            }
        }
        r
    }

    /// Insert or replace the value for `k`; returns the previous value.
    pub fn insert(&mut self, k: K, v: V) -> (r: Option<V>)
        requires
            old(self).wf(),
        ensures
            final(self).wf(),
            final(self)@ == old(self)@.insert(k, v),
            r.is_some() == old(self)@.contains_key(k),
            r matches Some(ov) ==> ov == old(self)@[k],
    {
        match self.find(&k) {
            Some(i) => {
                let ghost old_entries = self.entries@;
                let ghost kk = k;
                let mut pair = (k, v);
                std::mem::swap(&mut pair, &mut self.entries[i]);
                proof {
                    self.contents@ = self.contents@.insert(kk, self.entries@[i as int].1);
                    assert(self.entries@ == old_entries.update(i as int, self.entries@[i as int]));
                    assert forall|kx: K| #[trigger] self.contents@.contains_key(kx) implies exists|
                        j: int,
                    |
                        0 <= j < self.entries@.len() && #[trigger] self.entries@[j].0 == kx by {
                        if kx == kk {
                            assert(self.entries@[i as int].0 == kx);
                        } else {
                            let j = choose|j: int|
                                0 <= j < old_entries.len() && old_entries[j].0 == kx;
                            assert(self.entries@[j].0 == kx);
                        }
                    }
                }
                Some(pair.1)
            },
            None => {
                let ghost kk = k;
                let ghost vv = v;
                self.entries.push((k, v));
                proof {
                    self.contents@ = self.contents@.insert(kk, vv);
                    assert forall|kx: K| #[trigger] self.contents@.contains_key(kx) implies exists|
                        j: int,
                    |
                        0 <= j < self.entries@.len() && #[trigger] self.entries@[j].0 == kx by {
                        if kx == kk {
                            assert(self.entries@[self.entries@.len() - 1].0 == kx);
                        } else {
                            let j = choose|j: int|
                                0 <= j < old(self).entries@.len() && old(self).entries@[j].0
                                    == kx;
                            assert(self.entries@[j].0 == kx);
                        }
                    }
                }
                None
            },
        }
    }

    /// A copy of a map whose values are duplicated by their `Duplicate` impl.
    pub fn duplicate_values(&self) -> (r: Self) where K: Copy, V: Duplicate
        requires
            self.wf(),
        ensures
            r.wf(),
            r@.dom() == self@.dom(),
            forall|k: K| #[trigger] r@.contains_key(k) ==> r@[k]@ == self@[k]@,
    {
        proof {
            self.lemma_entries();
        }
        let mut out: Vec<(K, V)> = Vec::new();
        let mut i: usize = 0;
        while i < self.entries.len()
            invariant
                self.wf(),
                i <= self.entries@.len(),
                out@.len() == i,
                forall|j: int| 0 <= j < i ==> (#[trigger] out@[j]).0 == self.entries@[j].0 && out@[j].1@ == self.entries@[j].1@,
            decreases self.entries@.len() - i,
        {
            let k = self.entries[i].0;
            let v = self.entries[i].1.duplicate();
            out.push((k, v));
            i = i + 1;
        }
        let ghost g = Map::new(|k: K| self.contents@.contains_key(k), |k: K| {
            let j = choose|j: int| 0 <= j < out@.len() && out@[j].0 == k;
            out@[j].1
        });
        let r = VecMap { entries: out, contents: Ghost(g) };
        proof {
            assert forall|j: int| 0 <= j < r.entries@.len() implies #[trigger] r.contents@.contains_key(r.entries@[j].0) && r.contents@[r.entries@[j].0] == r.entries@[j].1 by {
                assert(out@[j].0 == self.entries@[j].0);
                assert(self.contents@.contains_key(self.entries@[j].0));
                let k = out@[j].0;
                let jj = choose|jj: int| 0 <= jj < out@.len() && out@[jj].0 == k;
                if jj != j {
                    assert(self.entries@[jj].0 != self.entries@[j].0);
                }
            }
            assert forall|k: K| #[trigger] r.contents@.contains_key(k) implies exists|j: int| 0 <= j < r.entries@.len() && #[trigger] r.entries@[j].0 == k by {
                let j = choose|j: int| 0 <= j < self.entries@.len() && #[trigger] self.entries@[j].0 == k;
                assert(out@[j].0 == k);
                assert(r.entries@[j].0 == k);
            }
            assert forall|a: int, b: int| 0 <= a < r.entries@.len() && 0 <= b < r.entries@.len() && a != b implies #[trigger] r.entries@[a].0 != #[trigger] r.entries@[b].0 by {
                assert(self.entries@[a].0 != self.entries@[b].0);
            }
            assert(r.wf());
            assert(r@.dom() =~= self@.dom());
            assert forall|k: K| #[trigger] r@.contains_key(k) implies r@[k]@ == self@[k]@ by {
                let j = choose|j: int| 0 <= j < self.entries@.len() && #[trigger] self.entries@[j].0 == k;
                assert(out@[j].0 == k);
                assert(r.contents@[r.entries@[j].0] == r.entries@[j].1);
            }
        }
        r
    }

    /// A copy of a map whose keys and values are plain copyable data.
    pub fn clone_copy(&self) -> (r: Self) where K: Copy, V: Copy
        requires
            self.wf(),
        ensures
            r.wf(),
            r@ == self@,
            r.entry_seq() == self.entry_seq(),
    {
        let mut out: Vec<(K, V)> = Vec::new();
        let mut i: usize = 0;
        while i < self.entries.len()
            invariant
                i <= self.entries@.len(),
                out@ == self.entries@.subrange(0, i as int),
            decreases self.entries@.len() - i,
        {
            let e = self.entries[i];
            out.push(e);
            i = i + 1;
            proof {
                assert(out@ =~= self.entries@.subrange(0, i as int));
            }
        }
        proof {
            assert(out@ =~= self.entries@);
        }
        let r = VecMap { entries: out, contents: Ghost(self.contents@) };
        proof {
            assert(r.entries@ == self.entries@);
            assert(r.contents@ == self.contents@);
            assert forall|j: int| 0 <= j < r.entries@.len() implies #[trigger] r.contents@.contains_key(r.entries@[j].0) && r.contents@[r.entries@[j].0] == r.entries@[j].1 by {
                assert(self.contents@.contains_key(self.entries@[j].0));
            }
            assert forall|k: K| #[trigger] r.contents@.contains_key(k) implies exists|j: int| 0 <= j < r.entries@.len() && #[trigger] r.entries@[j].0 == k by {
                assert(self.contents@.contains_key(k));
                let j = choose|j: int| 0 <= j < self.entries@.len() && #[trigger] self.entries@[j].0 == k;
                assert(r.entries@[j].0 == k);
            }
            assert forall|a: int, b: int| 0 <= a < r.entries@.len() && 0 <= b < r.entries@.len() && a != b implies #[trigger] r.entries@[a].0 != #[trigger] r.entries@[b].0 by {
                assert(self.entries@[a].0 != self.entries@[b].0);
            }
        }
        r
    }

    /// Remove the entry for `k`; returns the removed value.
    pub fn remove(&mut self, k: &K) -> (r: Option<V>)
        requires
            old(self).wf(),
        ensures
            final(self).wf(),
            final(self)@ == old(self)@.remove(*k),
            r.is_some() == old(self)@.contains_key(*k),
            r matches Some(ov) ==> ov == old(self)@[*k],
    {
        match self.find(k) {
            Some(i) => {
                let ghost old_entries = self.entries@;
                let ghost n = old_entries.len();
                let pair = self.entries.swap_remove(i);
                proof {
                    self.contents@ = self.contents@.remove(*k);
                    assert forall|j: int| 0 <= j < self.entries@.len() implies #[trigger] (
                    self.entries@[j]) == if j == i {
                        old_entries[n - 1]
                    } else {
                        old_entries[j]
                    } by {}
                    assert forall|j: int|
                        0 <= j < self.entries@.len() implies #[trigger] self.contents@.contains_key(
                        self.entries@[j].0,
                    ) && self.contents@[self.entries@[j].0] == self.entries@[j].1 by {
                        if j == i {
                            assert(old_entries[n - 1].0 != old_entries[i as int].0);
                        } else {
                            assert(old_entries[j].0 != old_entries[i as int].0);
                        }
                    }
                    assert forall|kx: K| #[trigger] self.contents@.contains_key(kx) implies exists|
                        j: int,
                    |
                        0 <= j < self.entries@.len() && #[trigger] self.entries@[j].0 == kx by {
                        let j = choose|j: int| 0 <= j < n && old_entries[j].0 == kx;
                        if j == n - 1 {
                            assert(self.entries@[i as int].0 == kx);
                        } else {
                            assert(self.entries@[j].0 == kx);
                        }
                    }
                    assert forall|a: int, b: int|
                        0 <= a < self.entries@.len() && 0 <= b < self.entries@.len() && a
                            != b implies #[trigger] self.entries@[a].0
                        != #[trigger] self.entries@[b].0 by {
                        let oa = if a == i {
                            n - 1
                        } else {
                            a
                        };
                        let ob = if b == i {
                            n - 1
                        } else {
                            b
                        };
                        assert(old_entries[oa].0 != old_entries[ob].0);
                    }
                }
                Some(pair.1)
            },
            None => {
                proof {
                    assert(self.contents@ =~= self.contents@.remove(*k));
                }
                None
            },
        }
    }
}

} // verus!
