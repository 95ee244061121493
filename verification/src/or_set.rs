//! Observed-remove set of byte-string elements.
//!
//! Every add carries a fresh tag `(node, counter)`; a remove tombstones the
//! tags of the adds it has observed. An element is present while one of its
//! tags is not tombstoned, so an add concurrent with a remove survives the
//! merge. Merging is the union of both the adds and the tombstones, which is
//! commutative, associative and idempotent.
use vstd::prelude::*;
use crate::ids::NodeId;
use crate::ids::id_eq;
use crate::bytes_map::bytes_eq;
use crate::bytes_map::bytes_copy;

verus! {

/// A tagged add: the element, the adding node and its counter.
pub type TaggedAdd = (Seq<u8>, NodeId, u64);

/// The state of an observed-remove set.
pub struct OrSetView {
    /// Every add seen, with its tag.
    pub adds: Set<TaggedAdd>,
    /// Tags whose adds were removed.
    pub removed: Set<(NodeId, u64)>,
}

/// The element has an add whose tag is not tombstoned.
pub open spec fn orset_contains(v: OrSetView, e: Seq<u8>) -> bool {
    exists|n: NodeId, c: u64| #[trigger] v.adds.contains((e, n, c)) && !v.removed.contains((n, c))
}

/// `m` is the largest counter `node` has used (zero when none).
pub open spec fn is_max_counter(adds: Set<TaggedAdd>, node: NodeId, m: u64) -> bool {
    &&& forall|e: Seq<u8>, k: u64| #[trigger] adds.contains((e, node, k)) ==> k <= m
    &&& m > 0 ==> exists|e: Seq<u8>| adds.contains((e, node, m))
}

/// The largest counter `node` has used.
pub open spec fn max_counter_of(adds: Set<TaggedAdd>, node: NodeId) -> u64 {
    choose|m: u64| is_max_counter(adds, node, m)
}

/// The state after `node` adds `e`: the add is tagged with the node's next
/// counter; when the node has used up its counters the state is unchanged.
pub open spec fn orset_add(v: OrSetView, node: NodeId, e: Seq<u8>) -> OrSetView {
    let m = max_counter_of(v.adds, node);
    if m < u64::MAX {
        OrSetView { adds: v.adds.insert((e, node, (m + 1) as u64)), removed: v.removed }
    } else {
        v
    }
}

/// The state after removing `e`: the tags of its adds are tombstoned.
pub open spec fn orset_remove(v: OrSetView, e: Seq<u8>) -> OrSetView {
    OrSetView { adds: v.adds, removed: v.removed.union(tags_of(v, e)) }
}

/// The largest counter is unique.
pub proof fn lemma_max_counter_unique(adds: Set<TaggedAdd>, node: NodeId, m: u64)
    requires
        is_max_counter(adds, node, m),
    ensures
        max_counter_of(adds, node) == m,
{
    let c = max_counter_of(adds, node);
    assert(is_max_counter(adds, node, c));
    if c > 0 {
        let e = choose|e: Seq<u8>| adds.contains((e, node, c));
        assert(c <= m);
    }
    if m > 0 {
        let e = choose|e: Seq<u8>| adds.contains((e, node, m));
        assert(m <= c);
    }
}

/// An element just added is present, unless the node had used up its counters.
pub proof fn lemma_orset_add_contains(v: OrSetView, node: NodeId, e: Seq<u8>, m: u64)
    requires
        tombstones_observed(v),
        is_max_counter(v.adds, node, m),
        m < u64::MAX,
    ensures
        orset_contains(orset_add(v, node, e), e),
{
    lemma_max_counter_unique(v.adds, node, m);
    let c = (m + 1) as u64;
    if v.removed.contains((node, c)) {
        let x = choose|x: Seq<u8>| v.adds.contains((x, node, c));
        assert(c <= m);
    }
    assert(orset_add(v, node, e).adds.contains((e, node, c)));
}

/// The tags of the adds of `e`.
pub open spec fn tags_of(v: OrSetView, e: Seq<u8>) -> Set<(NodeId, u64)> {
    Set::new(|t: (NodeId, u64)| v.adds.contains((e, t.0, t.1)))
}

/// The merge of two states: the union of adds and of tombstones.
pub open spec fn orset_merge(a: OrSetView, b: OrSetView) -> OrSetView {
    OrSetView { adds: a.adds.union(b.adds), removed: a.removed.union(b.removed) }
}

/// Every tombstone names the tag of a known add.
pub open spec fn tombstones_observed(v: OrSetView) -> bool {
    forall|n: NodeId, c: u64| #[trigger] v.removed.contains((n, c)) ==> exists|e: Seq<u8>|
        v.adds.contains((e, n, c))
}

/// An observed-remove set of byte strings.
pub struct OrSet {
    adds: Vec<(Vec<u8>, NodeId, u64)>,
    removed: Vec<(NodeId, u64)>,
}

/// The view of one stored add.
pub open spec fn add_view(t: (Vec<u8>, NodeId, u64)) -> TaggedAdd {
    (t.0@, t.1, t.2)
}

/// The tagged adds a list of stored adds stands for.
pub open spec fn adds_set(s: Seq<(Vec<u8>, NodeId, u64)>) -> Set<TaggedAdd> {
    s.map_values(|t: (Vec<u8>, NodeId, u64)| add_view(t)).to_set()
}

proof fn lemma_adds_set(s: Seq<(Vec<u8>, NodeId, u64)>)
    ensures
        forall|i: int| 0 <= i < s.len() ==> #[trigger] adds_set(s).contains(add_view(s[i])),
        forall|t: TaggedAdd| #[trigger]
            adds_set(s).contains(t) ==> exists|i: int| 0 <= i < s.len() && add_view(#[trigger] s[i]) == t,
{
    let m = s.map_values(|t: (Vec<u8>, NodeId, u64)| add_view(t));
    assert forall|i: int| 0 <= i < s.len() implies #[trigger] adds_set(s).contains(add_view(s[i])) by {
        assert(m[i] == add_view(s[i]));
    }
    assert forall|t: TaggedAdd| #[trigger] adds_set(s).contains(t) implies exists|i: int|
        0 <= i < s.len() && add_view(#[trigger] s[i]) == t by {
        let i = choose|i: int| 0 <= i < m.len() && m[i] == t;
        assert(add_view(s[i]) == t);
    }
}

proof fn lemma_adds_set_push(s: Seq<(Vec<u8>, NodeId, u64)>, a: (Vec<u8>, NodeId, u64))
    ensures
        adds_set(s.push(a)) == adds_set(s).insert(add_view(a)),
{
    let m = s.map_values(|t: (Vec<u8>, NodeId, u64)| add_view(t));
    assert(s.push(a).map_values(|t: (Vec<u8>, NodeId, u64)| add_view(t)) =~= m.push(add_view(a)));
    m.lemma_push_to_set_commute(add_view(a));
}

/// Whether a list of stored adds holds one with this view.
fn holds_add(v: &Vec<(Vec<u8>, NodeId, u64)>, a: &(Vec<u8>, NodeId, u64)) -> (r: bool)
    ensures
        r == adds_set(v@).contains(add_view(*a)),
{
    proof {
        lemma_adds_set(v@);
    }
    let mut i: usize = 0;
    while i < v.len()
        invariant
            i <= v@.len(),
            forall|j: int| 0 <= j < i ==> add_view(#[trigger] v@[j]) != add_view(*a),
        decreases v@.len() - i,
    {
        if id_eq(&v[i].1, &a.1) && v[i].2 == a.2 && bytes_eq(v[i].0.as_slice(), a.0.as_slice()) {
            proof {
                lemma_adds_set(v@);
                assert(add_view(v@[i as int]) == add_view(*a));
            }
            return true;
        }
        i = i + 1;
    }
    false
}

/// Whether a list of tags holds `tag`.
fn holds_tag(v: &Vec<(NodeId, u64)>, tag: &(NodeId, u64)) -> (r: bool)
    ensures
        r == v@.contains(*tag),
{
    let mut i: usize = 0;
    while i < v.len()
        invariant
            i <= v@.len(),
            forall|j: int| 0 <= j < i ==> v@[j] != *tag,
        decreases v@.len() - i,
    {
        if id_eq(&v[i].0, &tag.0) && v[i].1 == tag.1 {
            return true;
        }
        i = i + 1;
    }
    false
}

impl View for OrSet {
    type V = OrSetView;

    closed spec fn view(&self) -> OrSetView {
        OrSetView { adds: adds_set(self.adds@), removed: self.removed@.to_set() }
    }
}

impl OrSet {
    #[verifier::type_invariant]
    spec fn inv(&self) -> bool {
        tombstones_observed(self@)
    }

    /// An empty set.
    pub fn new() -> (r: Self)
        ensures
            r@.adds == Set::<TaggedAdd>::empty(),
            r@.removed == Set::<(NodeId, u64)>::empty(),
    {
        let r = OrSet { adds: Vec::new(), removed: Vec::new() };
        proof {
            assert(r@.adds =~= Set::<TaggedAdd>::empty());
            assert(r@.removed =~= Set::<(NodeId, u64)>::empty());
        }
        r
    }

    /// The stored adds and tombstones, leaving this set empty.
    fn take_parts(&mut self) -> (r: (Vec<(Vec<u8>, NodeId, u64)>, Vec<(NodeId, u64)>))
        ensures
            adds_set(r.0@) == old(self)@.adds,
            r.1@.to_set() == old(self)@.removed,
            tombstones_observed(old(self)@),
            final(self).adds@.len() == 0,
            final(self).removed@.len() == 0,
    {
        proof {
            use_type_invariant(&*self);
        }
        let mut removed: Vec<(NodeId, u64)> = Vec::new();
        std::mem::swap(&mut removed, &mut self.removed);
        let mut adds: Vec<(Vec<u8>, NodeId, u64)> = Vec::new();
        std::mem::swap(&mut adds, &mut self.adds);
        (adds, removed)
    }

    /// The largest counter `node` has used (zero when none).
    fn max_counter(adds: &Vec<(Vec<u8>, NodeId, u64)>, node: &NodeId) -> (r: u64)
        ensures
            is_max_counter(adds_set(adds@), *node, r),
    {
        proof {
            lemma_adds_set(adds@);
        }
        let mut m: u64 = 0;
        let mut i: usize = 0;
        while i < adds.len()
            invariant
                i <= adds@.len(),
                forall|j: int| 0 <= j < i && (#[trigger] adds@[j]).1 == *node ==> adds@[j].2 <= m,
                m > 0 ==> exists|j: int| 0 <= j < i && (#[trigger] adds@[j]).1 == *node && adds@[j].2 == m,
            decreases adds@.len() - i,
        {
            if id_eq(&adds[i].1, node) && adds[i].2 > m {
                m = adds[i].2;
            }
            i = i + 1;
        }
        proof {
            assert forall|e: Seq<u8>, k: u64| #[trigger] adds_set(adds@).contains((e, *node, k)) implies k <= m by {
                let j = choose|j: int| 0 <= j < adds@.len() && add_view(#[trigger] adds@[j]) == (e, *node, k);
                assert(adds@[j].1 == *node);
            }
            if m > 0 {
                let j = choose|j: int| 0 <= j < adds@.len() && (#[trigger] adds@[j]).1 == *node && adds@[j].2 == m;
                assert(adds_set(adds@).contains(add_view(adds@[j])));
            }
        }
        m
    }

    /// Add `element` under the next tag of `node_id`. When the node has used
    /// every counter up to `u64::MAX` no fresh tag exists and the set is left
    /// unchanged.
    pub fn add(&mut self, node_id: NodeId, element: Vec<u8>)
        ensures
            final(self)@ == orset_add(old(self)@, node_id, element@),
            max_counter_of(old(self)@.adds, node_id) < u64::MAX ==> orset_contains(
                final(self)@,
                element@,
            ),
    {
        let ghost old_v = self@;
        let (mut adds, removed) = self.take_parts();
        let m = Self::max_counter(&adds, &node_id);
        proof {
            lemma_max_counter_unique(old_v.adds, node_id, m);
        }
        if m == u64::MAX {
            self.adds = adds;
            self.removed = removed;
            return;
        }
        let c = m + 1;
        let ghost e = element@;
        let ghost before = adds@;
        adds.push((element, node_id, c));
        proof {
            lemma_adds_set_push(before, adds@[adds@.len() - 1]);
            assert(adds@ == before.push(adds@[adds@.len() - 1]));
            lemma_orset_add_contains(old_v, node_id, e, m);
            let nv = OrSetView { adds: adds_set(adds@), removed: removed@.to_set() };
            assert(nv == orset_add(old_v, node_id, e));
            assert(tombstones_observed(nv)) by {
                assert forall|n: NodeId, k: u64| #[trigger] nv.removed.contains((n, k)) implies exists|x: Seq<u8>|
                    nv.adds.contains((x, n, k)) by {
                    assert(old_v.removed.contains((n, k)));
                    let x = choose|x: Seq<u8>| old_v.adds.contains((x, n, k));
                    assert(nv.adds.contains((x, n, k)));
                }
            }
        }
        self.adds = adds;
        self.removed = removed;
    }

    /// Whether `element` is present.
    pub fn contains(&self, element: &[u8]) -> (r: bool)
        ensures
            r == orset_contains(self@, element@),
    {
        proof {
            lemma_adds_set(self.adds@);
        }
        let mut i: usize = 0;
        while i < self.adds.len()
            invariant
                i <= self.adds@.len(),
                forall|j: int|
                    0 <= j < i && (#[trigger] self.adds@[j]).0@ == element@ ==> self@.removed.contains(
                        (self.adds@[j].1, self.adds@[j].2),
                    ),
            decreases self.adds@.len() - i,
        {
            if bytes_eq(self.adds[i].0.as_slice(), element) {
                let tag = (self.adds[i].1, self.adds[i].2);
                if !holds_tag(&self.removed, &tag) {
                    proof {
                        lemma_adds_set(self.adds@);
                        assert(self@.adds.contains(add_view(self.adds@[i as int])));
                        assert(self@.adds.contains((element@, tag.0, tag.1)));
                    }
                    return true;
                }
            }
            i = i + 1;
        }
        proof {
            if orset_contains(self@, element@) {
                let (n, c) = choose|n: NodeId, c: u64| #[trigger] self@.adds.contains((element@, n, c)) && !self@.removed.contains((n, c));
                let j = choose|j: int| 0 <= j < self.adds@.len() && add_view(#[trigger] self.adds@[j]) == (element@, n, c);
                assert(self.adds@[j].0@ == element@);
            }
        }
        false
    }

    /// Remove `element`: tombstone the tags of all its observed adds.
    pub fn remove(&mut self, element: &[u8])
        ensures
            final(self)@ == orset_remove(old(self)@, element@),
            !orset_contains(final(self)@, element@),
    {
        let ghost old_v = self@;
        let (adds, mut removed) = self.take_parts();
        proof {
            lemma_adds_set(adds@);
        }
        let mut i: usize = 0;
        while i < adds.len()
            invariant
                i <= adds@.len(),
                adds_set(adds@) == old_v.adds,
                forall|t: (NodeId, u64)| #[trigger] removed@.to_set().contains(t) ==> old_v.removed.contains(t)
                    || tags_of(old_v, element@).contains(t),
                forall|t: (NodeId, u64)| #[trigger] old_v.removed.contains(t) ==> removed@.to_set().contains(t),
                forall|j: int| 0 <= j < i && (#[trigger] adds@[j]).0@ == element@ ==> removed@.to_set().contains(
                    (adds@[j].1, adds@[j].2),
                ),
            decreases adds@.len() - i,
        {
            if bytes_eq(adds[i].0.as_slice(), element) {
                let t = (adds[i].1, adds[i].2);
                if !holds_tag(&removed, &t) {
                    let ghost before = removed@;
                    removed.push(t);
                    proof {
                        before.lemma_push_to_set_commute(t);
                        lemma_adds_set(adds@);
                        assert(old_v.adds.contains(add_view(adds@[i as int])));
                        assert(tags_of(old_v, element@).contains(t));
                    }
                }
            }
            i = i + 1;
        }
        proof {
            assert(removed@.to_set() =~= old_v.removed.union(tags_of(old_v, element@))) by {
                assert forall|t: (NodeId, u64)| tags_of(old_v, element@).contains(t) implies removed@.to_set().contains(t) by {
                    let j = choose|j: int| 0 <= j < adds@.len() && add_view(#[trigger] adds@[j]) == (element@, t.0, t.1);
                    assert(adds@[j].0@ == element@);
                }
            }
            let nv = OrSetView { adds: adds_set(adds@), removed: removed@.to_set() };
            assert(tombstones_observed(nv)) by {
                assert forall|n: NodeId, k: u64| #[trigger] nv.removed.contains((n, k)) implies exists|x: Seq<u8>|
                    nv.adds.contains((x, n, k)) by {
                    if old_v.removed.contains((n, k)) {
                        let x = choose|x: Seq<u8>| old_v.adds.contains((x, n, k));
                        assert(nv.adds.contains((x, n, k)));
                    } else {
                        assert(tags_of(old_v, element@).contains((n, k)));
                        assert(nv.adds.contains((element@, n, k)));
                    }
                }
            }
        }
        self.adds = adds;
        self.removed = removed;
    }

    /// Merge another replica's set: union of adds and of tombstones.
    pub fn merge(&mut self, other: &Self)
        ensures
            final(self)@ == orset_merge(old(self)@, other@),
    {
        proof {
            use_type_invariant(other);
            lemma_adds_set(other.adds@);
        }
        let ghost old_v = self@;
        let (mut adds, mut removed) = self.take_parts();
        let mut i: usize = 0;
        while i < other.adds.len()
            invariant
                i <= other.adds@.len(),
                adds_set(adds@) == old_v.adds.union(adds_set(other.adds@.take(i as int))),
            decreases other.adds@.len() - i,
        {
            let a = (bytes_copy(other.adds[i].0.as_slice()), other.adds[i].1, other.adds[i].2);
            let ghost av = add_view(other.adds@[i as int]);
            assert(add_view(a) == av);
            let ghost before = adds@;
            if !holds_add(&adds, &a) {
                adds.push(a);
                proof {
                    lemma_adds_set_push(before, a);
                }
            }
            proof {
                assert(other.adds@.take(i + 1) =~= other.adds@.take(i as int).push(other.adds@[i as int]));
                lemma_adds_set_push(other.adds@.take(i as int), other.adds@[i as int]);
                assert(adds_set(adds@) =~= old_v.adds.union(adds_set(other.adds@.take(i + 1))));
            }
            i = i + 1;
        }
        proof {
            assert(other.adds@.take(other.adds@.len() as int) =~= other.adds@);
        }
        let mut k: usize = 0;
        while k < other.removed.len()
            invariant
                k <= other.removed@.len(),
                removed@.to_set() == old_v.removed.union(other.removed@.take(k as int).to_set()),
            decreases other.removed@.len() - k,
        {
            let t = other.removed[k];
            let ghost before = removed@;
            if !holds_tag(&removed, &t) {
                removed.push(t);
                proof {
                    before.lemma_push_to_set_commute(t);
                }
            }
            proof {
                assert(other.removed@.take(k + 1) =~= other.removed@.take(k as int).push(t));
                other.removed@.take(k as int).lemma_push_to_set_commute(t);
                assert(removed@.to_set() =~= old_v.removed.union(other.removed@.take(k + 1).to_set()));
            }
            k = k + 1;
        }
        proof {
            assert(other.removed@.take(other.removed@.len() as int) =~= other.removed@);
            let nv = OrSetView { adds: adds_set(adds@), removed: removed@.to_set() };
            assert(nv == orset_merge(old_v, other@));
            assert(tombstones_observed(nv)) by {
                assert forall|n: NodeId, c: u64| #[trigger] nv.removed.contains((n, c)) implies exists|x: Seq<u8>|
                    nv.adds.contains((x, n, c)) by {
                    if old_v.removed.contains((n, c)) {
                        let x = choose|x: Seq<u8>| old_v.adds.contains((x, n, c));
                        assert(nv.adds.contains((x, n, c)));
                    } else {
                        assert(other@.removed.contains((n, c)));
                        let x = choose|x: Seq<u8>| other@.adds.contains((x, n, c));
                        assert(nv.adds.contains((x, n, c)));
                    }
                }
            }
        }
        self.adds = adds;
        self.removed = removed;
    }
}

impl crate::crdt::CvRDT for OrSet {
    fn merge(&mut self, other: &Self)
        ensures
            final(self)@ == orset_merge(old(self)@, other@),
    {
        OrSet::merge(self, other)
    }
}

/// Merging observed-remove sets is commutative.
pub proof fn lemma_orset_merge_commutative(a: OrSetView, b: OrSetView)
    ensures
        orset_merge(a, b) == orset_merge(b, a),
{
    assert(orset_merge(a, b).adds =~= orset_merge(b, a).adds);
    assert(orset_merge(a, b).removed =~= orset_merge(b, a).removed);
}

/// Merging observed-remove sets is associative.
pub proof fn lemma_orset_merge_associative(a: OrSetView, b: OrSetView, c: OrSetView)
    ensures
        orset_merge(orset_merge(a, b), c) == orset_merge(a, orset_merge(b, c)),
{
    assert(orset_merge(orset_merge(a, b), c).adds =~= orset_merge(a, orset_merge(b, c)).adds);
    assert(orset_merge(orset_merge(a, b), c).removed =~= orset_merge(a, orset_merge(b, c)).removed);
}

/// Merging an observed-remove set with itself changes nothing.
pub proof fn lemma_orset_merge_idempotent(a: OrSetView)
    ensures
        orset_merge(a, a) == a,
{
    assert(orset_merge(a, a).adds =~= a.adds);
    assert(orset_merge(a, a).removed =~= a.removed);
}

/// An add that another replica has not observed survives that replica's
/// remove: after merging, the element is present.
pub proof fn lemma_orset_add_wins(a: OrSetView, b: OrSetView, e: Seq<u8>, n: NodeId, c: u64)
    requires
        a.adds.contains((e, n, c)),
        !a.removed.contains((n, c)),
        !b.removed.contains((n, c)),
    ensures
        orset_contains(orset_merge(a, b), e),
{
    assert(orset_merge(a, b).adds.contains((e, n, c)));
}

} // verus!
