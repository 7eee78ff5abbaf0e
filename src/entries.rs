//! Sequences of key/value entries: the map they describe, the order of
//! their keys, binary search by key and bulk construction.
use core::cmp::Ordering;
use vstd::prelude::*;

use crate::order::{
    lemma_ascending_no_duplicates, lemma_ascending_remove, lemma_ascending_unique, lemma_lt_facts,
    lemma_lt_trans, lt, strictly_ascending, total_order,
};

verus! {

/// The keys of the entries, in the same order.
pub open spec fn keys_of<K, V>(s: Seq<(K, V)>) -> Seq<K> {
    s.map_values(|e: (K, V)| e.0)
}

/// The map that the entries describe; of two entries with the same key the
/// later one wins.
pub open spec fn map_of<K, V>(s: Seq<(K, V)>) -> Map<K, V>
    decreases s.len(),
{
    if s.len() == 0 {
        Map::empty()
    } else {
        map_of(s.drop_last()).insert(s.last().0, s.last().1)
    }
}

/// The keys of the entries are strictly ascending.
pub open spec fn keys_ascending<K: Ord, V>(s: Seq<(K, V)>) -> bool {
    strictly_ascending(keys_of(s))
}

pub proof fn lemma_map_of_dom<K, V>(s: Seq<(K, V)>)
    ensures
        map_of(s).dom() == keys_of(s).to_set(),
    decreases s.len(),
{
    if s.len() > 0 {
        lemma_map_of_dom(s.drop_last());
        assert(keys_of(s) =~= keys_of(s.drop_last()).push(s.last().0));
        keys_of(s.drop_last()).lemma_push_to_set_commute(s.last().0);
    } else {
        assert(keys_of(s).to_set() =~= Set::empty());
    }
    assert(map_of(s).dom() =~= keys_of(s).to_set());
}

pub proof fn lemma_map_of_value<K, V>(s: Seq<(K, V)>, i: int)
    requires
        keys_of(s).no_duplicates(),
        0 <= i < s.len(),
    ensures
        map_of(s).contains_key(s[i].0),
        map_of(s)[s[i].0] == s[i].1,
    decreases s.len(),
{
    if i < s.len() - 1 {
        let t = s.drop_last();
        assert(keys_of(t) =~= keys_of(s).drop_last());
        assert(keys_of(s)[i] != keys_of(s)[s.len() - 1]);
        lemma_map_of_value(t, i);
    }
}

/// Entries with distinct keys describe `m` when they hold exactly its keys,
/// each with its value.
pub proof fn lemma_map_of_ext<K, V>(s: Seq<(K, V)>, m: Map<K, V>)
    requires
        keys_of(s).no_duplicates(),
        keys_of(s).to_set() == m.dom(),
        forall|i: int| 0 <= i < s.len() ==> m[#[trigger] s[i].0] == s[i].1,
    ensures
        map_of(s) == m,
{
    lemma_map_of_dom(s);
    assert forall|k: K| #[trigger] map_of(s).contains_key(k) implies map_of(s)[k] == m[k] by {
        let i = choose|i: int| 0 <= i < keys_of(s).len() && keys_of(s)[i] == k;
        lemma_map_of_value(s, i);
    }
    assert(map_of(s) =~= m);
}

/// Entries whose keys ascend describe the map with those keys and values.
pub proof fn lemma_map_of_ascending<K: Ord, V>(s: Seq<(K, V)>)
    requires
        total_order::<K>(),
        keys_ascending(s),
    ensures
        map_of(s).dom() == keys_of(s).to_set(),
        forall|i: int| 0 <= i < s.len() ==> #[trigger] map_of(s)[s[i].0] == s[i].1,
{
    lemma_ascending_no_duplicates(keys_of(s));
    lemma_map_of_dom(s);
    assert forall|i: int| 0 <= i < s.len() implies #[trigger] map_of(s)[s[i].0] == s[i].1 by {
        lemma_map_of_value(s, i);
    }
}

/// Later entries win over earlier ones.
pub proof fn lemma_map_of_concat<K, V>(l: Seq<(K, V)>, r: Seq<(K, V)>)
    ensures
        map_of(l + r) == map_of(l).union_prefer_right(map_of(r)),
    decreases r.len(),
{
    if r.len() == 0 {
        assert(l + r =~= l);
        assert(map_of(l).union_prefer_right(map_of(r)) =~= map_of(l));
    } else {
        assert((l + r).drop_last() =~= l + r.drop_last());
        lemma_map_of_concat(l, r.drop_last());
        assert(map_of(l + r) =~= map_of(l).union_prefer_right(map_of(r)));
    }
}

/// Two sequences of entries with ascending keys that describe the same map
/// are equal.
pub proof fn lemma_entries_unique<K: Ord, V>(s: Seq<(K, V)>, t: Seq<(K, V)>)
    requires
        total_order::<K>(),
        keys_ascending(s),
        keys_ascending(t),
        map_of(s) == map_of(t),
    ensures
        s == t,
{
    lemma_map_of_ascending(s);
    lemma_map_of_ascending(t);
    lemma_ascending_unique(keys_of(s), keys_of(t));
    assert(s.len() == keys_of(s).len());
    assert forall|i: int| 0 <= i < s.len() implies s[i] == t[i] by {
        assert(keys_of(s)[i] == keys_of(t)[i]);
        assert(s[i].0 == t[i].0);
        assert(map_of(s)[s[i].0] == s[i].1);
        assert(map_of(t)[t[i].0] == t[i].1);
    }
    assert(s =~= t);
}

/// A key that differs from every key of the entries is not in their map.
pub proof fn lemma_map_of_absent<K, V>(s: Seq<(K, V)>, k: K)
    requires
        forall|j: int| 0 <= j < s.len() ==> #[trigger] s[j].0 != k,
    ensures
        !map_of(s).contains_key(k),
{
    lemma_map_of_dom(s);
    if keys_of(s).to_set().contains(k) {
        let i = choose|i: int| 0 <= i < keys_of(s).len() && keys_of(s)[i] == k;
        assert(s[i].0 == k);
    }
}

/// Inserting an entry with a new key adds that key to the map.
pub proof fn lemma_map_of_insert<K: Ord, V>(s: Seq<(K, V)>, idx: int, e: (K, V))
    requires
        total_order::<K>(),
        keys_ascending(s),
        keys_ascending(s.insert(idx, e)),
        0 <= idx <= s.len(),
    ensures
        map_of(s.insert(idx, e)) == map_of(s).insert(e.0, e.1),
{
    let t = s.insert(idx, e);
    let m = map_of(s).insert(e.0, e.1);
    lemma_map_of_ascending(s);
    lemma_ascending_no_duplicates(keys_of(t));
    assert forall|j: int| 0 <= j < s.len() implies #[trigger] s[j].0 != e.0 by {
        if j < idx {
            assert(keys_of(t)[j] == s[j].0);
            assert(keys_of(t)[idx] == e.0);
        } else {
            assert(keys_of(t)[j + 1] == s[j].0);
            assert(keys_of(t)[idx] == e.0);
        }
    }
    assert forall|k: K| keys_of(t).to_set().contains(k) <==> m.dom().contains(k) by {
        if keys_of(t).to_set().contains(k) {
            let i = choose|i: int| 0 <= i < keys_of(t).len() && keys_of(t)[i] == k;
            if i < idx {
                assert(keys_of(s)[i] == k);
            } else if i > idx {
                assert(keys_of(s)[i - 1] == k);
            }
        }
        if m.dom().contains(k) && k != e.0 {
            let i = choose|i: int| 0 <= i < keys_of(s).len() && keys_of(s)[i] == k;
            if i < idx {
                assert(keys_of(t)[i] == k);
            } else {
                assert(keys_of(t)[i + 1] == k);
            }
        }
        if k == e.0 {
            assert(keys_of(t)[idx] == k);
        }
    }
    assert(keys_of(t).to_set() =~= m.dom());
    assert forall|i: int| 0 <= i < t.len() implies m[#[trigger] t[i].0] == t[i].1 by {
        if i < idx {
            assert(t[i] == s[i]);
        } else if i > idx {
            assert(t[i] == s[i - 1]);
        }
    }
    lemma_map_of_ext(t, m);
}

/// Giving an entry a new value gives its key that value in the map.
pub proof fn lemma_map_of_update<K: Ord, V>(s: Seq<(K, V)>, idx: int, v: V)
    requires
        total_order::<K>(),
        keys_ascending(s),
        0 <= idx < s.len(),
    ensures
        keys_ascending(s.update(idx, (s[idx].0, v))),
        map_of(s.update(idx, (s[idx].0, v))) == map_of(s).insert(s[idx].0, v),
{
    let t = s.update(idx, (s[idx].0, v));
    let m = map_of(s).insert(s[idx].0, v);
    assert(keys_of(t) =~= keys_of(s));
    lemma_map_of_ascending(s);
    lemma_ascending_no_duplicates(keys_of(s));
    assert(keys_of(s)[idx] == s[idx].0);
    assert(keys_of(s).to_set().contains(s[idx].0));
    assert(keys_of(t).to_set() =~= m.dom());
    assert forall|i: int| 0 <= i < t.len() implies m[#[trigger] t[i].0] == t[i].1 by {
        if i != idx {
            assert(keys_of(s)[i] != keys_of(s)[idx]);
        }
    }
    lemma_map_of_ext(t, m);
}

/// Removing an entry removes its key from the map.
pub proof fn lemma_map_of_remove<K: Ord, V>(s: Seq<(K, V)>, idx: int)
    requires
        total_order::<K>(),
        keys_ascending(s),
        0 <= idx < s.len(),
    ensures
        keys_ascending(s.remove(idx)),
        map_of(s.remove(idx)) == map_of(s).remove(s[idx].0),
{
    let t = s.remove(idx);
    let m = map_of(s).remove(s[idx].0);
    assert(keys_of(t) =~= keys_of(s).remove(idx));
    lemma_ascending_remove(keys_of(s), idx);
    lemma_map_of_ascending(s);
    lemma_ascending_no_duplicates(keys_of(s));
    lemma_ascending_no_duplicates(keys_of(t));
    assert forall|k: K| keys_of(t).to_set().contains(k) <==> m.dom().contains(k) by {
        if keys_of(t).to_set().contains(k) {
            let i = choose|i: int| 0 <= i < keys_of(t).len() && keys_of(t)[i] == k;
            if i < idx {
                assert(keys_of(s)[i] == k);
                assert(keys_of(s)[i] != keys_of(s)[idx]);
            } else {
                assert(keys_of(s)[i + 1] == k);
                assert(keys_of(s)[i + 1] != keys_of(s)[idx]);
            }
        }
        if m.dom().contains(k) {
            let i = choose|i: int| 0 <= i < keys_of(s).len() && keys_of(s)[i] == k;
            if i < idx {
                assert(keys_of(t)[i] == k);
            } else {
                assert(i != idx);
                assert(keys_of(t)[i - 1] == k);
            }
        }
    }
    assert(keys_of(t).to_set() =~= m.dom());
    assert forall|i: int| 0 <= i < t.len() implies m[#[trigger] t[i].0] == t[i].1 by {
        if i < idx {
            assert(t[i] == s[i]);
            assert(keys_of(s)[i] != keys_of(s)[idx]);
        } else {
            assert(t[i] == s[i + 1]);
            assert(keys_of(s)[i + 1] != keys_of(s)[idx]);
        }
    }
    lemma_map_of_ext(t, m);
}

/// Binary search by key in entries whose keys ascend: `Ok` with the position
/// of `key`, or `Err` with the position where it would be inserted.
pub fn search_entries<K: Ord, V>(s: &[(K, V)], key: &K) -> (r: Result<usize, usize>)
    requires
        total_order::<K>(),
        keys_ascending(s@),
    ensures
        match r {
            Ok(i) => i < s@.len() && s@[i as int].0 == *key,
            Err(i) => i <= s@.len() && (forall|j: int| 0 <= j < i ==> lt(#[trigger] s@[j].0, *key))
                && (forall|j: int| i <= j < s@.len() ==> lt(*key, #[trigger] s@[j].0)),
        },
{
    let mut lo: usize = 0;
    let mut hi: usize = s.len();
    while lo < hi
        invariant
            total_order::<K>(),
            keys_ascending(s@),
            lo <= hi <= s@.len(),
            forall|j: int| 0 <= j < lo ==> lt(#[trigger] s@[j].0, *key),
            forall|j: int| hi <= j < s@.len() ==> lt(*key, #[trigger] s@[j].0),
        decreases hi - lo,
    {
        let mid = lo + (hi - lo) / 2;
        assert(keys_of(s@)[mid as int] == s@[mid as int].0);
        match s[mid].0.cmp(key) {
            Ordering::Equal => {
                return Ok(mid);
            },
            Ordering::Less => {
                assert forall|j: int| 0 <= j < mid + 1 implies lt(#[trigger] s@[j].0, *key) by {
                    if j < mid {
                        assert(lt(keys_of(s@)[j], keys_of(s@)[mid as int]));
                        lemma_lt_trans(s@[j].0, s@[mid as int].0, *key);
                    }
                }
                lo = mid + 1;
            },
            Ordering::Greater => {
                proof {
                    lemma_lt_facts(s@[mid as int].0, *key);
                }
                assert forall|j: int| mid <= j < s@.len() implies lt(*key, #[trigger] s@[j].0) by {
                    if j > mid {
                        assert(lt(keys_of(s@)[mid as int], keys_of(s@)[j]));
                        lemma_lt_trans(*key, s@[mid as int].0, s@[j].0);
                    }
                }
                hi = mid;
            },
        }
    }
    Err(lo)
}

} // verus!
