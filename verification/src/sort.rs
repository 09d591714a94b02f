//! Lexicographic byte order and a verified stable sort of indices by byte keys.
//!
//! Swifty orders files by byte-wise (ordinal) comparison of derived keys; ties keep
//! their input order.

use vstd::prelude::*;

verus! {

/// Strict lexicographic order on byte sequences (a proper prefix is smaller).
pub open spec fn bytes_lt(a: Seq<u8>, b: Seq<u8>) -> bool
    decreases a.len(),
{
    if a.len() == 0 {
        b.len() > 0
    } else if b.len() == 0 {
        false
    } else if a[0] != b[0] {
        a[0] < b[0]
    } else {
        bytes_lt(a.drop_first(), b.drop_first())
    }
}

/// Non-strict lexicographic order on byte sequences.
pub open spec fn bytes_le(a: Seq<u8>, b: Seq<u8>) -> bool {
    !bytes_lt(b, a)
}

pub proof fn lemma_bytes_lt_irreflexive(a: Seq<u8>)
    ensures
        !bytes_lt(a, a),
    decreases a.len(),
{
    if a.len() > 0 {
        lemma_bytes_lt_irreflexive(a.drop_first());
    }
}

pub proof fn lemma_bytes_lt_total(a: Seq<u8>, b: Seq<u8>)
    ensures
        a == b || bytes_lt(a, b) || bytes_lt(b, a),
        !(bytes_lt(a, b) && bytes_lt(b, a)),
    decreases a.len(),
{
    if a.len() > 0 && b.len() > 0 && a[0] == b[0] {
        lemma_bytes_lt_total(a.drop_first(), b.drop_first());
        if a.drop_first() == b.drop_first() {
            assert(a =~= seq![a[0]] + a.drop_first());
            assert(b =~= seq![b[0]] + b.drop_first());
        }
    } else if a.len() == 0 && b.len() == 0 {
        assert(a =~= b);
    }
}

pub proof fn lemma_bytes_lt_transitive(a: Seq<u8>, b: Seq<u8>, c: Seq<u8>)
    requires
        bytes_lt(a, b),
        bytes_lt(b, c),
    ensures
        bytes_lt(a, c),
    decreases a.len(),
{
    if a.len() > 0 && b.len() > 0 && c.len() > 0 && a[0] == b[0] && b[0] == c[0] {
        lemma_bytes_lt_transitive(a.drop_first(), b.drop_first(), c.drop_first());
    }
}

/// Lexicographic order is a total preorder with `bytes_le`.
pub proof fn lemma_bytes_le_transitive(a: Seq<u8>, b: Seq<u8>, c: Seq<u8>)
    requires
        bytes_le(a, b),
        bytes_le(b, c),
    ensures
        bytes_le(a, c),
{
    if bytes_lt(c, a) {
        lemma_bytes_lt_total(a, b);
        lemma_bytes_lt_total(b, c);
        if a == b {
        } else if b == c {
        } else {
            lemma_bytes_lt_transitive(a, b, c);
            lemma_bytes_lt_total(a, c);
        }
    }
}

pub proof fn lemma_bytes_lt_le_transitive(a: Seq<u8>, b: Seq<u8>, c: Seq<u8>)
    requires
        bytes_lt(a, b),
        bytes_le(b, c),
    ensures
        bytes_lt(a, c),
{
    lemma_bytes_lt_total(b, c);
    if b != c {
        lemma_bytes_lt_transitive(a, b, c);
    }
}

/// Compares two byte slices lexicographically.
pub fn slice_bytes_lt(a: &[u8], b: &[u8]) -> (r: bool)
    ensures
        r == bytes_lt(a@, b@),
{
    let mut i: usize = 0;
    assert(a@.skip(0) =~= a@ && b@.skip(0) =~= b@);
    while i < a.len() && i < b.len()
        invariant
            0 <= i <= a@.len(),
            i <= b@.len(),
            bytes_lt(a@, b@) == bytes_lt(a@.skip(i as int), b@.skip(i as int)),
        decreases a@.len() - i,
    {
        if a[i] != b[i] {
            return a[i] < b[i];
        }
        assert(a@.skip(i as int).drop_first() =~= a@.skip(i + 1));
        assert(b@.skip(i as int).drop_first() =~= b@.skip(i + 1));
        i = i + 1;
    }
    i < b.len()
}

/// Ordering of positions by their key, then by position (a stable order).
pub open spec fn key_index_lt(keys: Seq<Seq<u8>>, i: int, j: int) -> bool {
    bytes_lt(keys[i], keys[j]) || (keys[i] == keys[j] && i < j)
}

/// `order` lists every position of `keys` once, ascending by key and, among
/// equal keys, by position: the result of a stable sort.
pub open spec fn is_stable_sort_order(keys: Seq<Seq<u8>>, order: Seq<usize>) -> bool {
    &&& order.len() == keys.len()
    &&& forall|i: int| 0 <= i < order.len() ==> #[trigger] order[i] < keys.len()
    &&& forall|m: int| 0 <= m < keys.len() ==> #[trigger] order.contains(m as usize)
    &&& forall|i: int, j: int|
        0 <= i < j < order.len() ==> key_index_lt(keys, #[trigger] order[i] as int, #[trigger] order[j] as int)
}

/// Positions `0..keys.len()` in stable ascending key order.
pub fn stable_sort_order(keys: &Vec<Vec<u8>>) -> (order: Vec<usize>)
    ensures
        is_stable_sort_order(keys@.map_values(|k: Vec<u8>| k@), order@),
{
    let ghost ks = keys@.map_values(|k: Vec<u8>| k@);
    let mut order: Vec<usize> = Vec::new();
    let mut n: usize = 0;
    while n < keys.len()
        invariant
            0 <= n <= keys@.len(),
            ks == keys@.map_values(|k: Vec<u8>| k@),
            order@.len() == n,
            forall|i: int| 0 <= i < order@.len() ==> #[trigger] order@[i] < n,
            forall|m: int| 0 <= m < n ==> #[trigger] order@.contains(m as usize),
            forall|i: int, j: int|
                0 <= i < j < order@.len() ==> key_index_lt(ks, #[trigger] order@[i] as int, #[trigger] order@[j] as int),
        decreases keys@.len() - n,
    {
        let key = keys[n].as_slice();
        // upper bound: first position whose key is strictly greater than `key`
        let mut lo: usize = 0;
        let mut hi: usize = order.len();
        while lo < hi
            invariant
                0 <= lo <= hi <= order@.len(),
                order@.len() == n,
                n < keys@.len(),
                key@ == ks[n as int],
                ks == keys@.map_values(|k: Vec<u8>| k@),
                forall|i: int| 0 <= i < order@.len() ==> #[trigger] order@[i] < n,
                forall|i: int, j: int|
                    0 <= i < j < order@.len() ==> key_index_lt(ks, #[trigger] order@[i] as int, #[trigger] order@[j] as int),
                forall|q: int| 0 <= q < lo ==> !bytes_lt(ks[n as int], #[trigger] ks[order@[q] as int]),
                forall|q: int| hi <= q < order@.len() ==> bytes_lt(ks[n as int], #[trigger] ks[order@[q] as int]),
            decreases hi - lo,
        {
            let mid = lo + (hi - lo) / 2;
            let m = order[mid];
            if slice_bytes_lt(key, keys[m].as_slice()) {
                assert forall|q: int| mid <= q < order@.len() implies bytes_lt(ks[n as int], #[trigger] ks[order@[q] as int]) by {
                    if q > mid {
                        assert(key_index_lt(ks, order@[mid as int] as int, order@[q] as int));
                        lemma_bytes_lt_total(ks[order@[mid as int] as int], ks[order@[q] as int]);
                        lemma_bytes_lt_le_transitive(ks[n as int], ks[order@[mid as int] as int], ks[order@[q] as int]);
                    }
                }
                hi = mid;
            } else {
                assert forall|q: int| 0 <= q <= mid implies !bytes_lt(ks[n as int], #[trigger] ks[order@[q] as int]) by {
                    if q < mid {
                        assert(key_index_lt(ks, order@[q] as int, order@[mid as int] as int));
                        lemma_bytes_lt_total(ks[order@[q] as int], ks[order@[mid as int] as int]);
                        lemma_bytes_le_transitive(ks[order@[q] as int], ks[order@[mid as int] as int], ks[n as int]);
                    }
                }
                lo = mid + 1;
            }
        }
        let ghost old_order = order@;
        order.insert(lo, n);
        assert forall|i: int, j: int|
            0 <= i < j < order@.len() implies key_index_lt(ks, #[trigger] order@[i] as int, #[trigger] order@[j] as int) by {
            if i < lo && j < lo {
                assert(order@[i] == old_order[i] && order@[j] == old_order[j]);
            } else if i < lo && j == lo {
                lemma_bytes_lt_total(ks[old_order[i] as int], ks[n as int]);
            } else if i < lo {
                assert(order@[i] == old_order[i] && order@[j] == old_order[j - 1]);
            } else if i == lo {
                assert(order@[j] == old_order[j - 1]);
            } else {
                assert(order@[i] == old_order[i - 1] && order@[j] == old_order[j - 1]);
            }
        }
        assert forall|m: int| 0 <= m < n + 1 implies #[trigger] order@.contains(m as usize) by {
            if m == n {
                assert(order@[lo as int] == n);
            } else {
                assert(old_order.contains(m as usize));
                let i = choose|i: int| 0 <= i < old_order.len() && old_order[i] == m as usize;
                if i < lo {
                    assert(order@[i] == old_order[i]);
                } else {
                    assert(order@[i + 1] == old_order[i]);
                }
            }
        }
        assert forall|i: int| 0 <= i < order@.len() implies #[trigger] order@[i] < n + 1 by {
            if i < lo {
                assert(order@[i] == old_order[i]);
            } else if i > lo {
                assert(order@[i] == old_order[i - 1]);
            }
        }
        n = n + 1;
    }
    order
}


/// The stable order of a list of keys is unique.
pub proof fn lemma_stable_sort_order_unique(keys: Seq<Seq<u8>>, o1: Seq<usize>, o2: Seq<usize>)
    requires
        is_stable_sort_order(keys, o1),
        is_stable_sort_order(keys, o2),
    ensures
        o1 == o2,
{
    assert forall|k: int| 0 <= k < o1.len() implies o1[k] == o2[k] by {
        lemma_stable_sort_order_unique_at(keys, o1, o2, k);
    }
    assert(o1 =~= o2);
}

proof fn lemma_stable_sort_order_unique_at(keys: Seq<Seq<u8>>, o1: Seq<usize>, o2: Seq<usize>, k: int)
    requires
        is_stable_sort_order(keys, o1),
        is_stable_sort_order(keys, o2),
        0 <= k < o1.len(),
    ensures
        o1[k] == o2[k],
    decreases k,
{
    if k > 0 {
        lemma_stable_sort_order_unique_at(keys, o1, o2, k - 1);
    }
    let a = o1[k];
    let b = o2[k];
    if a != b {
        assert(o2.contains((a as int) as usize));
        let j = choose|j: int| 0 <= j < o2.len() && o2[j] == a;
        assert(o1.contains((b as int) as usize));
        let i = choose|i: int| 0 <= i < o1.len() && o1[i] == b;
        // positions before k agree, and neither order repeats a position
        assert forall|q: int| 0 <= q < k implies o1[q] == o2[q] by {
            lemma_stable_sort_order_unique_at(keys, o1, o2, q);
        }
        if j < k {
            assert(o1[j] == a);
            lemma_key_index_lt_irreflexive(keys, a as int);
            assert(key_index_lt(keys, o1[j] as int, o1[k] as int));
        }
        if i < k {
            assert(o2[i] == b);
            lemma_key_index_lt_irreflexive(keys, b as int);
            assert(key_index_lt(keys, o2[i] as int, o2[k] as int));
        }
        assert(j > k && i > k);
        assert(key_index_lt(keys, o2[k] as int, o2[j] as int));
        assert(key_index_lt(keys, o1[k] as int, o1[i] as int));
        lemma_key_index_lt_asymmetric(keys, a as int, b as int);
    }
}

proof fn lemma_key_index_lt_irreflexive(keys: Seq<Seq<u8>>, i: int)
    ensures
        !key_index_lt(keys, i, i),
{
    lemma_bytes_lt_irreflexive(keys[i]);
}

proof fn lemma_key_index_lt_asymmetric(keys: Seq<Seq<u8>>, i: int, j: int)
    ensures
        !(key_index_lt(keys, i, j) && key_index_lt(keys, j, i)),
{
    lemma_bytes_lt_total(keys[i], keys[j]);
    lemma_bytes_lt_irreflexive(keys[i]);
}

} // verus!
