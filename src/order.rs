//! Key order: what the containers ask of `Ord`, strictly ascending
//! sequences, and binary search over them.
use core::cmp::Ordering;
use vstd::prelude::*;
use vstd::std_specs::cmp::OrdSpec;

verus! {

/// `a` comes strictly before `b` in the order of `K::cmp`.
pub open spec fn lt<K: Ord>(a: K, b: K) -> bool {
    a.cmp_spec(&b) == Ordering::Less
}

/// `K::cmp` is a strict total order whose `Equal` is equality.
pub open spec fn total_order<K: Ord>() -> bool {
    &&& K::obeys_cmp_spec()
    &&& forall|a: K, b: K| #[trigger] a.cmp_spec(&b) == Ordering::Equal <==> a == b
    &&& forall|a: K, b: K|
        #[trigger] a.cmp_spec(&b) == Ordering::Less <==> b.cmp_spec(&a) == Ordering::Greater
    &&& forall|a: K, b: K, c: K| #[trigger] lt(a, b) && #[trigger] lt(b, c) ==> lt(a, c)
}

/// Every element comes strictly before every later one.
pub open spec fn strictly_ascending<K: Ord>(s: Seq<K>) -> bool {
    forall|i: int, j: int| 0 <= i < j < s.len() ==> lt(#[trigger] s[i], #[trigger] s[j])
}

/// The primitive integer types are ordered as the containers require.
pub proof fn lemma_total_order_integers()
    ensures
        total_order::<u8>(),
        total_order::<u16>(),
        total_order::<u32>(),
        total_order::<u64>(),
        total_order::<usize>(),
        total_order::<i8>(),
        total_order::<i16>(),
        total_order::<i32>(),
        total_order::<i64>(),
        total_order::<isize>(),
{
}

/// Irreflexivity, asymmetry and trichotomy of `lt`.
pub proof fn lemma_lt_facts<K: Ord>(a: K, b: K)
    requires
        total_order::<K>(),
    ensures
        !lt(a, a),
        lt(a, b) ==> !lt(b, a) && a != b,
        a != b ==> lt(a, b) || lt(b, a),
{
    assert(a.cmp_spec(&a) == Ordering::Equal);
    if a.cmp_spec(&b) == Ordering::Greater {
        assert(b.cmp_spec(&a) == Ordering::Less);
    }
    if b.cmp_spec(&a) == Ordering::Greater {
        assert(a.cmp_spec(&b) == Ordering::Less);
    }
}

pub proof fn lemma_lt_trans<K: Ord>(a: K, b: K, c: K)
    requires
        total_order::<K>(),
        lt(a, b),
        lt(b, c),
    ensures
        lt(a, c),
{
}

/// A strictly ascending sequence holds no element twice.
pub proof fn lemma_ascending_no_duplicates<K: Ord>(s: Seq<K>)
    requires
        total_order::<K>(),
        strictly_ascending(s),
    ensures
        s.no_duplicates(),
{
    assert forall|i: int, j: int| 0 <= i < s.len() && 0 <= j < s.len() && i != j implies s[i]
        != s[j] by {
        if i < j {
            lemma_lt_facts(s[i], s[j]);
        } else {
            lemma_lt_facts(s[j], s[i]);
        }
    }
}

/// Two strictly ascending sequences that hold the same elements are equal.
pub proof fn lemma_ascending_unique<K: Ord>(a: Seq<K>, b: Seq<K>)
    requires
        total_order::<K>(),
        strictly_ascending(a),
        strictly_ascending(b),
        a.to_set() == b.to_set(),
    ensures
        a == b,
    decreases a.len(),
{
    if a.len() == 0 {
        if b.len() > 0 {
            assert(b.to_set().contains(b[0]));
        }
        assert(a =~= b);
    } else {
        assert(a.to_set().contains(a[0]));
        assert(b.len() > 0);
        assert(b.to_set().contains(b[0]));
        let i = choose|i: int| 0 <= i < a.len() && a[i] == b[0];
        let j = choose|j: int| 0 <= j < b.len() && b[j] == a[0];
        if j > 0 {
            assert(lt(b[0], b[j]));
            if i > 0 {
                assert(lt(a[0], a[i]));
                lemma_lt_facts(a[0], b[0]);
            }
            lemma_lt_facts(b[0], b[0]);
        }
        assert(a[0] == b[0]);
        let a1 = a.drop_first();
        let b1 = b.drop_first();
        assert forall|x: K| a1.to_set().contains(x) <==> b1.to_set().contains(x) by {
            if a1.to_set().contains(x) {
                let k = choose|k: int| 0 <= k < a1.len() && a1[k] == x;
                assert(lt(a[0], a[k + 1]));
                lemma_lt_facts(a[0], x);
                assert(b.to_set().contains(x));
                let l = choose|l: int| 0 <= l < b.len() && b[l] == x;
                assert(l != 0);
                assert(b1[l - 1] == x);
            }
            if b1.to_set().contains(x) {
                let k = choose|k: int| 0 <= k < b1.len() && b1[k] == x;
                assert(lt(b[0], b[k + 1]));
                lemma_lt_facts(b[0], x);
                assert(a.to_set().contains(x));
                let l = choose|l: int| 0 <= l < a.len() && a[l] == x;
                assert(l != 0);
                assert(a1[l - 1] == x);
            }
        }
        assert(a1.to_set() =~= b1.to_set());
        lemma_ascending_unique(a1, b1);
        assert forall|k: int| 0 <= k < a.len() implies a[k] == b[k] by {
            if k > 0 {
                assert(a[k] == a1[k - 1]);
                assert(b[k] == b1[k - 1]);
            }
        }
        assert(a =~= b);
    }
}

/// Appending an element greater than the last keeps a sequence strictly ascending.
pub proof fn lemma_ascending_push<K: Ord>(s: Seq<K>, x: K)
    requires
        total_order::<K>(),
        strictly_ascending(s),
        s.len() > 0 ==> lt(s.last(), x),
    ensures
        strictly_ascending(s.push(x)),
{
    let t = s.push(x);
    assert forall|i: int, j: int| 0 <= i < j < t.len() implies lt(#[trigger] t[i], #[trigger] t[j]) by {
        if j == s.len() && i < s.len() - 1 {
            lemma_lt_trans(s[i], s.last(), x);
        }
    }
}

/// Inserting an element between the smaller and the larger ones keeps a
/// sequence strictly ascending.
pub proof fn lemma_ascending_insert<K: Ord>(s: Seq<K>, idx: int, x: K)
    requires
        strictly_ascending(s),
        0 <= idx <= s.len(),
        forall|j: int| 0 <= j < idx ==> lt(#[trigger] s[j], x),
        forall|j: int| idx <= j < s.len() ==> lt(x, #[trigger] s[j]),
    ensures
        strictly_ascending(s.insert(idx, x)),
{
    let t = s.insert(idx, x);
    assert forall|i: int, j: int| 0 <= i < j < t.len() implies lt(#[trigger] t[i], #[trigger] t[j]) by {
        if i == idx && j > idx {
            assert(t[j] == s[j - 1]);
        } else if j == idx && i < idx {
            assert(t[i] == s[i]);
        } else if i < idx && j > idx {
            assert(lt(s[i], s[j - 1]));
        } else if i > idx {
            assert(lt(s[i - 1], s[j - 1]));
        } else {
            assert(lt(s[i], s[j]));
        }
    }
}

/// Removing an element keeps a sequence strictly ascending.
pub proof fn lemma_ascending_remove<K: Ord>(s: Seq<K>, idx: int)
    requires
        strictly_ascending(s),
        0 <= idx < s.len(),
    ensures
        strictly_ascending(s.remove(idx)),
{
    let t = s.remove(idx);
    assert forall|i: int, j: int| 0 <= i < j < t.len() implies lt(#[trigger] t[i], #[trigger] t[j]) by {
        if i >= idx {
            assert(lt(s[i + 1], s[j + 1]));
        } else if j >= idx {
            assert(lt(s[i], s[j + 1]));
        } else {
            assert(lt(s[i], s[j]));
        }
    }
}

/// The elements of the first `i + 1` items are those of the first `i` and item `i`.
pub proof fn lemma_take_succ_to_set<K>(s: Seq<K>, i: int)
    requires
        0 <= i < s.len(),
    ensures
        s.take(i + 1).to_set() == s.take(i).to_set().insert(s[i]),
        s.take(i + 1) == s.take(i).push(s[i]),
{
    assert(s.take(i + 1) =~= s.take(i).push(s[i]));
    s.take(i).lemma_push_to_set_commute(s[i]);
}

/// Binary search in a strictly ascending slice: `Ok` with the position of
/// `key`, or `Err` with the position where `key` would be inserted.
pub fn binary_search<K: Ord>(s: &[K], key: &K) -> (r: Result<usize, usize>)
    requires
        total_order::<K>(),
        strictly_ascending(s@),
    ensures
        match r {
            Ok(i) => i < s@.len() && s@[i as int] == *key,
            Err(i) => i <= s@.len() && (forall|j: int| 0 <= j < i ==> lt(#[trigger] s@[j], *key))
                && (forall|j: int| i <= j < s@.len() ==> lt(*key, #[trigger] s@[j])),
        },
{
    let mut lo: usize = 0;
    let mut hi: usize = s.len();
    while lo < hi
        invariant
            total_order::<K>(),
            strictly_ascending(s@),
            lo <= hi <= s@.len(),
            forall|j: int| 0 <= j < lo ==> lt(#[trigger] s@[j], *key),
            forall|j: int| hi <= j < s@.len() ==> lt(*key, #[trigger] s@[j]),
        decreases hi - lo,
    {
        let mid = lo + (hi - lo) / 2;
        match s[mid].cmp(key) {
            Ordering::Equal => {
                return Ok(mid);
            },
            Ordering::Less => {
                assert forall|j: int| 0 <= j < mid + 1 implies lt(#[trigger] s@[j], *key) by {
                    if j < mid {
                        lemma_lt_trans(s@[j], s@[mid as int], *key);
                    }
                }
                lo = mid + 1;
            },
            Ordering::Greater => {
                assert(lt(*key, s@[mid as int]));
                assert forall|j: int| mid <= j < s@.len() implies lt(*key, #[trigger] s@[j]) by {
                    if j > mid {
                        lemma_lt_trans(*key, s@[mid as int], s@[j]);
                    }
                }
                hi = mid;
            },
        }
    }
    Err(lo)
}

} // verus!
