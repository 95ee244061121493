//! Identifiers used throughout the crate, their byte-level comparisons and
//! lexicographic ordering, and sorting of identifier lists.
use vstd::prelude::*;
use vstd::multiset::Multiset;

verus! {

/// A 32-byte validator / node identifier (derived from a public key).
pub type NodeId = [u8; 32];

/// A 32-byte event identifier (the event's content hash).
pub type EventId = [u8; 32];

/// Byte-wise equality of two 32-byte identifiers.
pub fn id_eq(a: &[u8; 32], b: &[u8; 32]) -> (r: bool)
    ensures
        r == (*a == *b),
{
    let mut i: usize = 0;
    while i < 32
        invariant
            i <= 32,
            forall|j: int| 0 <= j < i ==> a@[j] == b@[j],
        decreases 32 - i,
    {
        if a[i] != b[i] {
            return false;
        }
        i = i + 1;
    }
    proof {
        broadcast use vstd::array::group_array_axioms;

        assert(*a =~= *b);
    }
    true
}

/// Lexicographic "less than" on the bytes from position `i` on.
pub open spec fn lex_lt_from(a: [u8; 32], b: [u8; 32], i: int) -> bool
    decreases 32 - i,
{
    if i < 0 || i >= 32 {
        false
    } else if a@[i] < b@[i] {
        true
    } else if a@[i] > b@[i] {
        false
    } else {
        lex_lt_from(a, b, i + 1)
    }
}

/// Lexicographic (big-endian byte) order on identifiers: the order of
/// `Ord` for `[u8; 32]`.
pub open spec fn id_lt(a: [u8; 32], b: [u8; 32]) -> bool {
    lex_lt_from(a, b, 0)
}

/// `a` sorts no later than `b`.
pub open spec fn id_le(a: [u8; 32], b: [u8; 32]) -> bool {
    id_lt(a, b) || a == b
}

proof fn lemma_lex_from_order(a: [u8; 32], b: [u8; 32], c: [u8; 32], i: int)
    requires
        0 <= i <= 32,
    ensures
        !(lex_lt_from(a, b, i) && lex_lt_from(b, a, i)),
        !lex_lt_from(a, a, i),
        lex_lt_from(a, b, i) && lex_lt_from(b, c, i) ==> lex_lt_from(a, c, i),
        (forall|j: int| i <= j < 32 ==> a@[j] == b@[j]) || lex_lt_from(a, b, i) || lex_lt_from(
            b,
            a,
            i,
        ),
    decreases 32 - i,
{
    if i < 32 {
        lemma_lex_from_order(a, b, c, i + 1);
    }
}

/// `id_lt` is a strict total order.
pub proof fn lemma_id_order(a: [u8; 32], b: [u8; 32], c: [u8; 32])
    ensures
        !id_lt(a, a),
        !(id_lt(a, b) && id_lt(b, a)),
        id_lt(a, b) && id_lt(b, c) ==> id_lt(a, c),
        a == b || id_lt(a, b) || id_lt(b, a),
{
    lemma_lex_from_order(a, b, c, 0);
    broadcast use vstd::array::group_array_axioms;

    if forall|j: int| 0 <= j < 32 ==> a@[j] == b@[j] {
        assert(a =~= b);
    }
}

/// Lexicographic comparison of two identifiers.
pub fn id_less(a: &[u8; 32], b: &[u8; 32]) -> (r: bool)
    ensures
        r == id_lt(*a, *b),
{
    let mut i: usize = 0;
    while i < 32
        invariant
            i <= 32,
            id_lt(*a, *b) == lex_lt_from(*a, *b, i as int),
        decreases 32 - i,
    {
        if a[i] < b[i] {
            return true;
        }
        if a[i] > b[i] {
            return false;
        }
        i = i + 1;
    }
    false
}

/// The identifiers are in non-decreasing lexicographic order.
pub open spec fn ids_sorted(s: Seq<[u8; 32]>) -> bool {
    forall|i: int, j: int| 0 <= i < j < s.len() ==> id_le(#[trigger] s[i], #[trigger] s[j])
}

/// Sort identifiers in ascending lexicographic order (insertion sort).
pub fn sort_ids(v: &Vec<[u8; 32]>) -> (r: Vec<[u8; 32]>)
    ensures
        ids_sorted(r@),
        r@.to_multiset() == v@.to_multiset(),
        r@.len() == v@.len(),
{
    let mut out: Vec<[u8; 32]> = Vec::new();
    let mut i: usize = 0;
    proof {
        assert(v@.take(0) =~= Seq::<[u8; 32]>::empty());
        broadcast use vstd::seq_lib::group_to_multiset_ensures;

    }
    while i < v.len()
        invariant
            i <= v@.len(),
            ids_sorted(out@),
            out@.to_multiset() == v@.take(i as int).to_multiset(),
            out@.len() == i,
        decreases v@.len() - i,
    {
        let x = v[i];
        let mut p: usize = 0;
        while p < out.len() && id_less(&out[p], &x)
            invariant
                p <= out@.len(),
                forall|q: int| 0 <= q < p ==> id_lt(#[trigger] out@[q], x),
            decreases out@.len() - p,
        {
            p = p + 1;
        }
        let ghost before = out@;
        proof {
            // Everything at or after `p` sorts no earlier than `x`.
            assert forall|q: int| p <= q < before.len() implies id_le(x, #[trigger] before[q]) by {
                lemma_id_order(x, before[p as int], before[q]);
                lemma_id_order(before[p as int], x, before[q]);
                if q > p {
                    assert(id_le(before[p as int], before[q]));
                }
            }
        }
        out.insert(p, x);
        proof {
            assert forall|a: int, b: int| 0 <= a < b < out@.len() implies id_le(
                #[trigger] out@[a],
                #[trigger] out@[b],
            ) by {
                if a < p && b == p {
                } else if a < p && b > p {
                    lemma_id_order(before[a], x, before[b - 1]);
                } else if a == p {
                } else if a < p {
                } else {
                    assert(id_le(before[a - 1], before[b - 1]));
                }
            }
            broadcast use vstd::seq_lib::group_to_multiset_ensures;

            vstd::seq_lib::to_multiset_insert(before, p as int, x);
            assert(v@.take(i + 1) =~= v@.take(i as int).push(x));
        }
        i = i + 1;
    }
    proof {
        assert(v@.take(v@.len() as int) =~= v@);
    }
    out
}

/// Strictly increasing lexicographic order (sorted and free of duplicates).
pub open spec fn ids_strictly_sorted(s: Seq<[u8; 32]>) -> bool {
    forall|i: int, j: int| 0 <= i < j < s.len() ==> id_lt(#[trigger] s[i], #[trigger] s[j])
}

/// Sorting a duplicate-free list gives a strictly increasing list of the same elements.
pub proof fn lemma_sorted_permutation_strict(r: Seq<[u8; 32]>, v: Seq<[u8; 32]>)
    requires
        ids_sorted(r),
        r.to_multiset() == v.to_multiset(),
        v.no_duplicates(),
    ensures
        ids_strictly_sorted(r),
        r.no_duplicates(),
        r.to_set() == v.to_set(),
{
    broadcast use vstd::seq_lib::group_to_multiset_ensures;

    v.lemma_multiset_has_no_duplicates();
    r.lemma_multiset_has_no_duplicates_conv();
    assert forall|i: int, j: int| 0 <= i < j < r.len() implies id_lt(#[trigger] r[i], #[trigger] r[j]) by {
        assert(id_le(r[i], r[j]));
        assert(r[i] != r[j]);
    }
    assert forall|x: [u8; 32]| r.to_set().contains(x) <==> v.to_set().contains(x) by {
        vstd::seq_lib::to_multiset_contains(r, x);
        vstd::seq_lib::to_multiset_contains(v, x);
    }
    assert(r.to_set() =~= v.to_set());
}

/// The ascending listing of a set of identifiers.
pub open spec fn sorted_listing_of(s: Set<[u8; 32]>) -> Seq<[u8; 32]> {
    choose|q: Seq<[u8; 32]>| ids_strictly_sorted(q) && q.to_set() == s
}

proof fn lemma_strict_prefix(a: Seq<[u8; 32]>, b: Seq<[u8; 32]>, n: int)
    requires
        ids_strictly_sorted(a),
        ids_strictly_sorted(b),
        a.to_set() == b.to_set(),
        0 <= n <= a.len(),
        n <= b.len(),
    ensures
        forall|j: int| 0 <= j < n ==> a[j] == b[j],
    decreases n,
{
    if n > 0 {
        lemma_strict_prefix(a, b, n - 1);
        let i = n - 1;
        assert(a.to_set().contains(a[i]));
        let j = choose|j: int| 0 <= j < b.len() && b[j] == a[i];
        assert(b.to_set().contains(b[i]));
        let k = choose|k: int| 0 <= k < a.len() && a[k] == b[i];
        if j < i {
            assert(a[j] == b[j]);
            lemma_id_order(a[j], a[i], a[i]);
        }
        if k < i {
            assert(a[k] == b[k]);
            lemma_id_order(b[k], b[i], b[i]);
        }
        if j > i && k > i {
            assert(id_lt(a[i], a[k]));
            assert(id_lt(b[i], b[j]));
            lemma_id_order(a[i], b[i], a[i]);
        }
    }
}

/// A set of identifiers has exactly one ascending listing.
pub proof fn lemma_strictly_sorted_unique(a: Seq<[u8; 32]>, b: Seq<[u8; 32]>)
    requires
        ids_strictly_sorted(a),
        ids_strictly_sorted(b),
        a.to_set() == b.to_set(),
    ensures
        a == b,
{
    let n = if a.len() <= b.len() { a.len() } else { b.len() };
    lemma_strict_prefix(a, b, n as int);
    if a.len() > b.len() {
        let i = b.len() as int;
        assert(a.to_set().contains(a[i]));
        let j = choose|j: int| 0 <= j < b.len() && b[j] == a[i];
        assert(a[j] == b[j]);
        lemma_id_order(a[j], a[i], a[i]);
    }
    if b.len() > a.len() {
        let i = a.len() as int;
        assert(b.to_set().contains(b[i]));
        let j = choose|j: int| 0 <= j < a.len() && a[j] == b[i];
        assert(a[j] == b[j]);
        lemma_id_order(b[j], b[i], b[i]);
    }
    assert(a =~= b);
}

/// An ascending listing of a set is its sorted listing.
pub proof fn lemma_sorted_listing_of(q: Seq<[u8; 32]>, s: Set<[u8; 32]>)
    requires
        ids_strictly_sorted(q),
        q.to_set() == s,
    ensures
        sorted_listing_of(s) == q,
{
    let c = sorted_listing_of(s);
    assert(ids_strictly_sorted(c) && c.to_set() == s);
    lemma_strictly_sorted_unique(c, q);
}

/// The ascending listing of a multiset of identifiers, repeats kept.
pub open spec fn sorted_multiset_listing(m: Multiset<[u8; 32]>) -> Seq<[u8; 32]> {
    choose|q: Seq<[u8; 32]>| ids_sorted(q) && q.to_multiset() == m
}

proof fn lemma_sorted_tail(a: Seq<[u8; 32]>)
    requires
        ids_sorted(a),
        a.len() > 0,
    ensures
        ids_sorted(a.drop_first()),
        forall|j: int| 0 <= j < a.len() ==> id_le(a[0], #[trigger] a[j]),
{
    let t = a.drop_first();
    assert forall|i: int, j: int| 0 <= i < j < t.len() implies id_le(#[trigger] t[i], #[trigger] t[j]) by {
        assert(t[i] == a[i + 1] && t[j] == a[j + 1]);
    }
    assert forall|j: int| 0 <= j < a.len() implies id_le(a[0], #[trigger] a[j]) by {
        if j > 0 {
            assert(id_le(a[0], a[j]));
        }
    }
}

/// Two sorted lists with the same elements, repeats counted, are equal.
pub proof fn lemma_sorted_multiset_unique(a: Seq<[u8; 32]>, b: Seq<[u8; 32]>)
    requires
        ids_sorted(a),
        ids_sorted(b),
        a.to_multiset() == b.to_multiset(),
    ensures
        a == b,
    decreases a.len(),
{
    broadcast use vstd::seq_lib::group_to_multiset_ensures;

    assert(a.len() == a.to_multiset().len());
    assert(b.len() == b.to_multiset().len());
    if a.len() == 0 {
        assert(a =~= b);
    } else {
        let x = a[0];
        let y = b[0];
        lemma_sorted_tail(a);
        lemma_sorted_tail(b);
        vstd::seq_lib::to_multiset_contains(a, x);
        vstd::seq_lib::to_multiset_contains(b, x);
        vstd::seq_lib::to_multiset_contains(a, y);
        vstd::seq_lib::to_multiset_contains(b, y);
        assert(a.contains(x));
        assert(b.contains(y));
        let j = choose|j: int| 0 <= j < b.len() && b[j] == x;
        let k = choose|k: int| 0 <= k < a.len() && a[k] == y;
        assert(id_le(y, b[j]));
        assert(id_le(x, a[k]));
        lemma_id_order(x, y, x);
        assert(x == y);
        vstd::seq_lib::to_multiset_remove(a, 0);
        vstd::seq_lib::to_multiset_remove(b, 0);
        assert(a.remove(0) =~= a.drop_first());
        assert(b.remove(0) =~= b.drop_first());
        lemma_sorted_multiset_unique(a.drop_first(), b.drop_first());
        assert forall|i: int| 0 <= i < a.len() implies a[i] == b[i] by {
            if i > 0 {
                assert(a[i] == a.drop_first()[i - 1]);
                assert(b[i] == b.drop_first()[i - 1]);
            }
        }
        assert(a =~= b);
    }
}

/// A sorted list is the sorted listing of its own elements.
pub proof fn lemma_sorted_multiset_listing(q: Seq<[u8; 32]>, m: Multiset<[u8; 32]>)
    requires
        ids_sorted(q),
        q.to_multiset() == m,
    ensures
        sorted_multiset_listing(m) == q,
{
    let c = sorted_multiset_listing(m);
    assert(ids_sorted(c) && c.to_multiset() == m);
    lemma_sorted_multiset_unique(c, q);
}

/// Little-endian byte encoding of a `u64`, as `u64::to_le_bytes` gives it.
pub open spec fn le_bytes_u64(x: u64) -> Seq<u8> {
    Seq::new(8, |i: int| ((x as int / pow256(i)) % 256) as u8)
}

/// `256^i` for small `i`.
pub open spec fn pow256(i: int) -> int
    decreases i,
{
    if i <= 0 {
        1
    } else {
        256 * pow256(i - 1)
    }
}

/// Append the little-endian bytes of `x` to `out`.
pub fn push_le_u64(out: &mut Vec<u8>, x: u64)
    ensures
        final(out)@ == old(out)@ + le_bytes_u64(x),
{
    let mut k: u64 = x;
    let mut i: usize = 0;
    let ghost start = out@;
    while i < 8
        invariant
            i <= 8,
            out@.len() == start.len() + i,
            out@.subrange(0, start.len() as int) == start,
            forall|j: int| 0 <= j < i ==> #[trigger] out@[start.len() + j] == le_bytes_u64(x)[j],
            k as int == x as int / pow256(i as int),
        decreases 8 - i,
    {
        proof {
            assert(pow256(i + 1) == 256 * pow256(i as int));
            assert(pow256(i as int) > 0) by {
                lemma_pow256_pos(i as int);
            }
            vstd::arithmetic::div_mod::lemma_div_denominator(x as int, pow256(i as int), 256);
        }
        out.push((k % 256) as u8);
        k = k / 256;
        i = i + 1;
    }
    proof {
        assert forall|j: int| 0 <= j < start.len() implies out@[j] == start[j] by {
            assert(out@.subrange(0, start.len() as int)[j] == out@[j]);
        }
        assert forall|j: int| start.len() <= j < out@.len() implies out@[j] == (start
            + le_bytes_u64(x))[j] by {
            assert(out@[start.len() + (j - start.len())] == le_bytes_u64(x)[j - start.len()]);
        }
        assert(out@ =~= start + le_bytes_u64(x));
    }
}

proof fn lemma_pow256_pos(i: int)
    ensures
        pow256(i) > 0,
    decreases i,
{
    if i > 0 {
        lemma_pow256_pos(i - 1);
    }
}

} // verus!
