//! Bulk construction: a merge sort on owned vectors that drops repeated
//! items as it merges, so that it needs no `Copy` or `Clone`.
use core::cmp::Ordering;
use vstd::prelude::*;
use vstd::seq_lib::seq_to_set_distributes_over_add;

use crate::entries::{
    keys_ascending, keys_of, lemma_map_of_concat, lemma_map_of_dom, lemma_map_of_ext,
    lemma_map_of_value, map_of,
};
use crate::order::{
    lemma_ascending_no_duplicates, lemma_ascending_push, lemma_lt_facts, lemma_lt_trans, lt,
    strictly_ascending, total_order,
};

verus! {

/// Every element comes strictly after every later one.
pub open spec fn strictly_descending<K: Ord>(s: Seq<K>) -> bool {
    forall|i: int, j: int| 0 <= i < j < s.len() ==> lt(#[trigger] s[j], #[trigger] s[i])
}

proof fn lemma_descending_push<K: Ord>(s: Seq<K>, x: K)
    requires
        total_order::<K>(),
        strictly_descending(s),
        s.len() > 0 ==> lt(x, s.last()),
    ensures
        strictly_descending(s.push(x)),
{
    let t = s.push(x);
    assert forall|i: int, j: int| 0 <= i < j < t.len() implies lt(#[trigger] t[j], #[trigger] t[i]) by {
        if j == s.len() && i < s.len() - 1 {
            lemma_lt_trans(x, s.last(), s[i]);
        }
    }
}

/// Reverses a strictly descending vector into a strictly ascending one.
fn ascending_from_descending<T: Ord>(mut desc: Vec<T>) -> (r: Vec<T>)
    requires
        total_order::<T>(),
        strictly_descending(desc@),
    ensures
        strictly_ascending(r@),
        r@.to_set() == desc@.to_set(),
        r@.len() == desc@.len(),
{
    let ghost all = desc@.to_set();
    let ghost total = desc@.len();
    let mut r: Vec<T> = Vec::with_capacity(desc.len());
    while desc.len() > 0
        invariant
            total_order::<T>(),
            strictly_descending(desc@),
            strictly_ascending(r@),
            r@.len() > 0 && desc@.len() > 0 ==> lt(r@.last(), desc@.last()),
            r@.to_set() + desc@.to_set() == all,
            r@.len() + desc@.len() == total,
        decreases desc@.len(),
    {
        let ghost d = desc@;
        let x = desc.pop().unwrap();
        proof {
            lemma_ascending_push(r@, x);
            r@.lemma_push_to_set_commute(x);
            assert(d =~= desc@.push(x));
            desc@.lemma_push_to_set_commute(x);
            if desc@.len() > 0 {
                assert(lt(d[d.len() - 1], d[d.len() - 2]));
            }
        }
        r.push(x);
        assert(r@.to_set() + desc@.to_set() =~= all);
    }
    assert(desc@.to_set() =~= Set::empty());
    assert(r@.to_set() =~= all);
    r
}

/// Merges two strictly ascending vectors, keeping one copy of each item.
fn merge_owned<T: Ord>(mut a: Vec<T>, mut b: Vec<T>) -> (r: Vec<T>)
    requires
        total_order::<T>(),
        strictly_ascending(a@),
        strictly_ascending(b@),
    ensures
        strictly_ascending(r@),
        r@.to_set() == a@.to_set() + b@.to_set(),
        r@.len() <= a@.len() + b@.len(),
{
    let ghost a0 = a@;
    let ghost b0 = b@;
    let mut desc: Vec<T> = Vec::new();
    while a.len() > 0 || b.len() > 0
        invariant
            total_order::<T>(),
            a@ == a0.take(a@.len() as int),
            b@ == b0.take(b@.len() as int),
            a@.len() <= a0.len(),
            b@.len() <= b0.len(),
            strictly_ascending(a0),
            strictly_ascending(b0),
            strictly_descending(desc@),
            desc@.len() > 0 && a@.len() > 0 ==> lt(a@.last(), desc@.last()),
            desc@.len() > 0 && b@.len() > 0 ==> lt(b@.last(), desc@.last()),
            desc@.to_set() + a@.to_set() + b@.to_set() == a0.to_set() + b0.to_set(),
            desc@.len() + a@.len() + b@.len() <= a0.len() + b0.len(),
        decreases a@.len() + b@.len(),
    {
        let ghost pa = a@;
        let ghost pb = b@;
        let x: T;
        if a.len() > 0 && b.len() > 0 {
            match a[a.len() - 1].cmp(&b[b.len() - 1]) {
                Ordering::Greater => {
                    proof {
                        lemma_lt_facts(a@.last(), b@.last());
                    }
                    x = a.pop().unwrap();
                },
                Ordering::Less => {
                    x = b.pop().unwrap();
                },
                Ordering::Equal => {
                    let _ = a.pop();
                    x = b.pop().unwrap();
                },
            }
        } else if a.len() > 0 {
            x = a.pop().unwrap();
        } else {
            x = b.pop().unwrap();
        }
        proof {
            assert(a@ =~= a0.take(a@.len() as int));
            assert(b@ =~= b0.take(b@.len() as int));
            if a@.len() < pa.len() {
                assert(pa =~= a@.push(pa.last()));
                a@.lemma_push_to_set_commute(pa.last());
                if a@.len() > 0 {
                    assert(lt(pa[a@.len() - 1], pa[a@.len() as int]));
                }
            }
            if b@.len() < pb.len() {
                assert(pb =~= b@.push(pb.last()));
                b@.lemma_push_to_set_commute(pb.last());
                if b@.len() > 0 {
                    assert(lt(pb[b@.len() - 1], pb[b@.len() as int]));
                }
            }
            if a@.len() == pa.len() && a@.len() > 0 {
                assert(lt(a@.last(), x));
            }
            if b@.len() == pb.len() && b@.len() > 0 {
                assert(lt(b@.last(), x));
            }
            lemma_descending_push(desc@, x);
            desc@.lemma_push_to_set_commute(x);
        }
        desc.push(x);
        assert(desc@.to_set() + a@.to_set() + b@.to_set() =~= a0.to_set() + b0.to_set());
    }
    assert(a@.to_set() =~= Set::empty());
    assert(b@.to_set() =~= Set::empty());
    assert(desc@.to_set() =~= a0.to_set() + b0.to_set());
    ascending_from_descending(desc)
}

/// Sorts `v` and keeps one copy of each item.
pub fn sort_dedup<T: Ord>(mut v: Vec<T>) -> (r: Vec<T>)
    requires
        total_order::<T>(),
    ensures
        strictly_ascending(r@),
        r@.to_set() == v@.to_set(),
        r@.len() <= v@.len(),
    decreases v@.len(),
{
    if v.len() <= 1 {
        return v;
    }
    let ghost v0 = v@;
    let mid = v.len() / 2;
    let right = v.split_off(mid);
    assert(v0 =~= v@ + right@);
    proof {
        seq_to_set_distributes_over_add(v@, right@);
    }
    let left_sorted = sort_dedup(v);
    let right_sorted = sort_dedup(right);
    merge_owned(left_sorted, right_sorted)
}

/// Reverses entries whose keys strictly descend.
fn ascending_entries_from_descending<K: Ord, V>(mut desc: Vec<(K, V)>) -> (r: Vec<(K, V)>)
    requires
        total_order::<K>(),
        strictly_descending(keys_of(desc@)),
    ensures
        keys_ascending(r@),
        map_of(r@) == map_of(desc@),
{
    let ghost d0 = desc@;
    let ghost n = d0.len();
    let mut r: Vec<(K, V)> = Vec::with_capacity(desc.len());
    while desc.len() > 0
        invariant
            desc@ == d0.take(n - r@.len()),
            r@.len() <= n,
            n == d0.len(),
            forall|i: int| 0 <= i < r@.len() ==> #[trigger] r@[i] == d0[n - 1 - i],
        decreases desc@.len(),
    {
        let x = desc.pop().unwrap();
        r.push(x);
        assert(desc@ =~= d0.take(n - r@.len()));
    }
    proof {
        let kd = keys_of(d0);
        let kr = keys_of(r@);
        assert(kr.len() == n);
        assert forall|i: int, j: int| 0 <= i < j < kr.len() implies lt(#[trigger] kr[i], #[trigger] kr[j]) by {
            assert(kr[i] == kd[n - 1 - i]);
            assert(kr[j] == kd[n - 1 - j]);
        }
        assert forall|i: int, j: int| 0 <= i < kd.len() && 0 <= j < kd.len() && i != j implies kd[i] != kd[j] by {
            if i < j {
                lemma_lt_facts(kd[j], kd[i]);
            } else {
                lemma_lt_facts(kd[i], kd[j]);
            }
        }
        assert(kd.no_duplicates());
        lemma_ascending_no_duplicates(kr);
        lemma_map_of_dom(d0);
        assert forall|k: K| kr.to_set().contains(k) <==> kd.to_set().contains(k) by {
            if kr.to_set().contains(k) {
                let i = choose|i: int| 0 <= i < kr.len() && kr[i] == k;
                assert(kd[n - 1 - i] == k);
            }
            if kd.to_set().contains(k) {
                let i = choose|i: int| 0 <= i < kd.len() && kd[i] == k;
                assert(kr[n - 1 - i] == k);
            }
        }
        assert(kr.to_set() =~= map_of(d0).dom());
        assert forall|i: int| 0 <= i < r@.len() implies map_of(d0)[#[trigger] r@[i].0] == r@[i].1 by {
            lemma_map_of_value(d0, n - 1 - i);
        }
        lemma_map_of_ext(r@, map_of(d0));
    }
    r
}

/// Merges two vectors of entries with ascending keys; on a key that both
/// hold, the entry of `b` wins.
fn merge_owned_entries<K: Ord, V>(mut a: Vec<(K, V)>, mut b: Vec<(K, V)>) -> (r: Vec<(K, V)>)
    requires
        total_order::<K>(),
        keys_ascending(a@),
        keys_ascending(b@),
    ensures
        keys_ascending(r@),
        map_of(r@) == map_of(a@).union_prefer_right(map_of(b@)),
{
    let ghost a0 = a@;
    let ghost b0 = b@;
    let ghost whole = map_of(a0).union_prefer_right(map_of(b0));
    let mut desc: Vec<(K, V)> = Vec::new();
    while a.len() > 0 || b.len() > 0
        invariant
            total_order::<K>(),
            a@ == a0.take(a@.len() as int),
            b@ == b0.take(b@.len() as int),
            a@.len() <= a0.len(),
            b@.len() <= b0.len(),
            keys_ascending(a0),
            keys_ascending(b0),
            strictly_descending(keys_of(desc@)),
            desc@.len() > 0 && a@.len() > 0 ==> lt(a@.last().0, desc@.last().0),
            desc@.len() > 0 && b@.len() > 0 ==> lt(b@.last().0, desc@.last().0),
            map_of(a@).union_prefer_right(map_of(b@)).union_prefer_right(map_of(desc@)) == whole,
        decreases a@.len() + b@.len(),
    {
        let ghost pa = a@;
        let ghost pb = b@;
        let ghost pd = desc@;
        let x: (K, V);
        if a.len() > 0 && b.len() > 0 {
            match a[a.len() - 1].0.cmp(&b[b.len() - 1].0) {
                Ordering::Greater => {
                    proof {
                        lemma_lt_facts(a@.last().0, b@.last().0);
                    }
                    x = a.pop().unwrap();
                },
                Ordering::Less => {
                    x = b.pop().unwrap();
                },
                Ordering::Equal => {
                    let _ = a.pop();
                    x = b.pop().unwrap();
                },
            }
        } else if a.len() > 0 {
            x = a.pop().unwrap();
        } else {
            x = b.pop().unwrap();
        }
        proof {
            assert(a@ =~= a0.take(a@.len() as int));
            assert(b@ =~= b0.take(b@.len() as int));
            assert(keys_of(a@) =~= keys_of(a0).take(a@.len() as int));
            assert(keys_of(b@) =~= keys_of(b0).take(b@.len() as int));
            lemma_map_of_dom(a@);
            lemma_map_of_dom(b@);
            lemma_map_of_dom(pd);
            if a@.len() < pa.len() {
                assert(a@ =~= pa.drop_last());
                if a@.len() > 0 {
                    assert(lt(keys_of(a0)[a@.len() - 1], keys_of(a0)[a@.len() as int]));
                }
            }
            if b@.len() < pb.len() {
                assert(b@ =~= pb.drop_last());
                if b@.len() > 0 {
                    assert(lt(keys_of(b0)[b@.len() - 1], keys_of(b0)[b@.len() as int]));
                }
            }
            if a@.len() == pa.len() && a@.len() > 0 {
                assert(lt(a@.last().0, x.0));
            }
            if b@.len() == pb.len() && b@.len() > 0 {
                assert(lt(b@.last().0, x.0));
            }
            // Every key still in `a` or `b`, and every key already in `desc`,
            // differs from `x.0`.
            assert forall|k: K| keys_of(a@).to_set().contains(k) implies lt(k, x.0) by {
                let i = choose|i: int| 0 <= i < keys_of(a@).len() && keys_of(a@)[i] == k;
                if i < a@.len() - 1 {
                    assert(lt(keys_of(a0)[i], keys_of(a0)[a@.len() - 1]));
                    lemma_lt_trans(k, a@.last().0, x.0);
                }
            }
            assert forall|k: K| keys_of(b@).to_set().contains(k) implies lt(k, x.0) by {
                let i = choose|i: int| 0 <= i < keys_of(b@).len() && keys_of(b@)[i] == k;
                if i < b@.len() - 1 {
                    assert(lt(keys_of(b0)[i], keys_of(b0)[b@.len() - 1]));
                    lemma_lt_trans(k, b@.last().0, x.0);
                }
            }
            assert forall|k: K| keys_of(pd).to_set().contains(k) implies lt(x.0, k) by {
                let i = choose|i: int| 0 <= i < keys_of(pd).len() && keys_of(pd)[i] == k;
                if i < pd.len() - 1 {
                    assert(lt(keys_of(pd)[pd.len() - 1], keys_of(pd)[i]));
                    lemma_lt_trans(x.0, pd.last().0, k);
                }
            }
            lemma_lt_facts(x.0, x.0);
            let kd = keys_of(pd);
            assert(keys_of(pd.push(x)) =~= kd.push(x.0));
            if pd.len() > 0 {
                assert(kd.last() == pd.last().0);
                lemma_descending_push(kd, x.0);
            } else {
                lemma_descending_push(kd, x.0);
            }
        }
        desc.push(x);
        proof {
            assert(desc@.drop_last() =~= pd);
            assert(map_of(a@).union_prefer_right(map_of(b@)).union_prefer_right(map_of(desc@))
                =~= whole);
        }
    }
    proof {
        assert(map_of(a@) =~= Map::empty());
        assert(map_of(b@) =~= Map::empty());
        assert(map_of(desc@) =~= whole);
    }
    ascending_entries_from_descending(desc)
}

/// Sorts entries by key and keeps, for each key, the entry that came last.
pub fn sort_dedup_entries<K: Ord, V>(mut v: Vec<(K, V)>) -> (r: Vec<(K, V)>)
    requires
        total_order::<K>(),
    ensures
        keys_ascending(r@),
        map_of(r@) == map_of(v@),
    decreases v@.len(),
{
    if v.len() <= 1 {
        return v;
    }
    let ghost v0 = v@;
    let mid = v.len() / 2;
    let right = v.split_off(mid);
    assert(v0 =~= v@ + right@);
    proof {
        lemma_map_of_concat(v@, right@);
    }
    let left_sorted = sort_dedup_entries(v);
    let right_sorted = sort_dedup_entries(right);
    merge_owned_entries(left_sorted, right_sorted)
}

} // verus!
