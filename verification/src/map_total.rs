//! Sums of the values of finite per-node count maps.
use vstd::prelude::*;
use crate::ids::NodeId;
use crate::vector_clock::count_at;
use crate::vector_clock::counts_le;

verus! {

/// The sum of all values of a finite map.
pub open spec fn map_total(m: Map<NodeId, u64>) -> int
    decreases m.dom().len(),
    when m.dom().finite()
{
    if m.dom().len() == 0 {
        0
    } else {
        let k = m.dom().choose();
        m[k] + map_total(m.remove(k))
    }
}

/// The sum of the values in a sequence of entries.
pub open spec fn entries_total(s: Seq<(NodeId, u64)>) -> int
    decreases s.len(),
{
    if s.len() == 0 {
        0
    } else {
        entries_total(s.drop_last()) + s.last().1
    }
}

/// Taking any key out of a finite map takes exactly its value out of the total.
pub proof fn lemma_total_remove(m: Map<NodeId, u64>, k: NodeId)
    requires
        m.dom().finite(),
        m.contains_key(k),
    ensures
        map_total(m) == m[k] + map_total(m.remove(k)),
    decreases m.dom().len(),
{
    let c = m.dom().choose();
    assert(m.dom().len() > 0) by {
        assert(m.dom().contains(k));
    }
    if c != k {
        let mc = m.remove(c);
        let mk = m.remove(k);
        assert(mc.dom() =~= m.dom().remove(c));
        assert(mk.dom() =~= m.dom().remove(k));
        lemma_total_remove(mc, k);
        lemma_total_remove(mk, c);
        assert(mc.remove(k) =~= mk.remove(c));
    }
}

/// The total of a map is non-negative.
pub proof fn lemma_total_nonneg(m: Map<NodeId, u64>)
    requires
        m.dom().finite(),
    ensures
        map_total(m) >= 0,
    decreases m.dom().len(),
{
    if m.dom().len() > 0 {
        let k = m.dom().choose();
        assert(m.remove(k).dom() =~= m.dom().remove(k));
        lemma_total_nonneg(m.remove(k));
    }
}

/// Inserting a key replaces its contribution to the total.
pub proof fn lemma_total_insert(m: Map<NodeId, u64>, k: NodeId, v: u64)
    requires
        m.dom().finite(),
    ensures
        map_total(m.insert(k, v)) == map_total(m) - count_at(m, k) + v,
{
    let mi = m.insert(k, v);
    lemma_total_remove(mi, k);
    if m.contains_key(k) {
        lemma_total_remove(m, k);
        assert(mi.remove(k) =~= m.remove(k));
    } else {
        assert(mi.remove(k) =~= m);
    }
}

/// A sequence of distinct-key entries sums to the total of the map it lists.
pub proof fn lemma_entries_total(s: Seq<(NodeId, u64)>, m: Map<NodeId, u64>)
    requires
        m.dom().finite(),
        forall|i: int| 0 <= i < s.len() ==> #[trigger] m.contains_key(s[i].0) && m[s[i].0] == s[i].1,
        forall|k: NodeId| #[trigger] m.contains_key(k) ==> exists|i: int| 0 <= i < s.len() && s[i].0 == k,
        forall|i: int, j: int| 0 <= i < s.len() && 0 <= j < s.len() && i != j ==> #[trigger] s[i].0 != #[trigger] s[j].0,
    ensures
        entries_total(s) == map_total(m),
    decreases s.len(),
{
    if s.len() == 0 {
        if m.dom().len() > 0 {
            let k = m.dom().choose();
            assert(m.contains_key(k));
        }
    } else {
        let last = s[s.len() - 1];
        let s2 = s.subrange(0, s.len() - 1);
        assert(s2 == s.drop_last());
        let m2 = m.remove(last.0);
        assert(m2.dom() =~= m.dom().remove(last.0));
        assert(m.contains_key(s[s.len() - 1].0));
        assert forall|i: int| 0 <= i < s2.len() implies #[trigger] m2.contains_key(s2[i].0) && m2[s2[i].0] == s2[i].1 by {
            assert(s2[i] == s[i]);
            assert(s[i].0 != s[s.len() - 1].0);
            assert(m.contains_key(s[i].0));
        }
        assert forall|k: NodeId| #[trigger] m2.contains_key(k) implies exists|i: int| 0 <= i < s2.len() && s2[i].0 == k by {
            let i = choose|i: int| 0 <= i < s.len() && s[i].0 == k;
            assert(i != s.len() - 1);
            assert(s2[i].0 == k);
        }
        assert forall|i: int, j: int| 0 <= i < s2.len() && 0 <= j < s2.len() && i != j implies #[trigger] s2[i].0 != #[trigger] s2[j].0 by {
            assert(s[i].0 != s[j].0);
        }
        lemma_entries_total(s2, m2);
        lemma_total_remove(m, last.0);
    }
}

/// The total is monotone in the pointwise order.
pub proof fn lemma_total_monotone(a: Map<NodeId, u64>, b: Map<NodeId, u64>)
    requires
        a.dom().finite(),
        b.dom().finite(),
        counts_le(a, b),
    ensures
        map_total(a) <= map_total(b),
    decreases a.dom().len(),
{
    lemma_total_nonneg(b);
    if a.dom().len() > 0 {
        let k = a.dom().choose();
        let a2 = a.remove(k);
        assert(a2.dom() =~= a.dom().remove(k));
        lemma_total_remove(a, k);
        assert(count_at(a, k) <= count_at(b, k));
        if b.contains_key(k) {
            let b2 = b.remove(k);
            lemma_total_remove(b, k);
            assert(counts_le(a2, b2)) by {
                assert forall|n: NodeId| #[trigger] count_at(a2, n) <= count_at(b2, n) by {
                    assert(count_at(a, n) <= count_at(b, n));
                }
            }
            lemma_total_monotone(a2, b2);
        } else {
            assert(counts_le(a2, b)) by {
                assert forall|n: NodeId| #[trigger] count_at(a2, n) <= count_at(b, n) by {
                    assert(count_at(a, n) <= count_at(b, n));
                }
            }
            lemma_total_monotone(a2, b);
        }
    }
}

} // verus!
