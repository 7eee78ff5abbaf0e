//! A map kept as one vector of `(key, value)` entries in strictly ascending
//! key order.
use vstd::prelude::*;

use crate::entries::{
    lemma_map_of_ext,
    keys_ascending, keys_of, lemma_entries_unique, lemma_map_of_absent, lemma_map_of_ascending,
    lemma_map_of_insert, lemma_map_of_remove, lemma_map_of_update, map_of, search_entries,
};
use crate::kernel::{compact, grow};
use crate::order::{
    lemma_ascending_insert, lemma_ascending_no_duplicates, lemma_ascending_push,
    lemma_ascending_unique, lemma_lt_facts, lemma_lt_trans, lemma_take_succ_to_set, lt,
    strictly_ascending, total_order,
};
use crate::sorting::sort_dedup_entries;
use crate::vecset::{reversed, VecSet};

verus! {

/// A map from `K` to `V` held as one vector of entries in ascending key order.
#[derive(Clone, PartialEq, Eq, Hash, Debug)]
pub struct VecMap<K, V>(Vec<(K, V)>);

impl<K, V> View for VecMap<K, V> {
    type V = Seq<(K, V)>;

    closed spec fn view(&self) -> Seq<(K, V)> {
        self.0@
    }
}

impl<K, V> VecMap<K, V> {
    /// Keys strictly ascend, so no key appears twice.
    pub open spec fn wf(&self) -> bool
        where K: Ord,
    {
        keys_ascending(self@)
    }

    /// The map that the entries describe.
    pub open spec fn as_map(&self) -> Map<K, V> {
        map_of(self@)
    }

    pub fn new() -> (r: Self)
        ensures
            r@ == Seq::<(K, V)>::empty(),
    {
        VecMap(Vec::new())
    }

    pub fn from_single(key: K, value: V) -> (r: Self)
        ensures
            r@ == seq![(key, value)],
    {
        let mut v = Vec::new();
        v.push((key, value));
        VecMap(v)
    }

    pub fn with_capacity(cap: usize) -> (r: Self)
        ensures
            r@ == Seq::<(K, V)>::empty(),
    {
        VecMap(Vec::with_capacity(cap))
    }

    pub fn len(&self) -> (r: usize)
        ensures
            r == self@.len(),
    {
        self.0.len()
    }

    pub fn is_empty(&self) -> (r: bool)
        ensures
            r == (self@.len() == 0),
    {
        self.0.len() == 0
    }

    /// The entries in ascending key order.
    pub fn as_slice(&self) -> (r: &[(K, V)])
        ensures
            r@ == self@,
    {
        self.0.as_slice()
    }
}

impl<K: Ord, V> VecMap<K, V> {
    /// Builds the map of the entries of `v`, in any order; of two entries
    /// with the same key the later one is kept.
    pub fn from_vec(v: Vec<(K, V)>) -> (r: Self)
        requires
            total_order::<K>(),
        ensures
            r.wf(),
            r.as_map() == map_of(v@),
    {
        VecMap(sort_dedup_entries(v))
    }

    fn search(&self, key: &K) -> (r: Result<usize, usize>)
        requires
            total_order::<K>(),
            self.wf(),
        ensures
            match r {
                Ok(i) => i < self@.len() && self@[i as int].0 == *key,
                Err(i) => i <= self@.len() && (forall|j: int|
                    0 <= j < i ==> lt(#[trigger] self@[j].0, *key)) && (forall|j: int|
                    i <= j < self@.len() ==> lt(*key, #[trigger] self@[j].0)),
            },
            r is Err ==> !self.as_map().contains_key(*key),
            r is Ok ==> self.as_map().contains_key(*key) && self.as_map()[*key] == self@[r->Ok_0 as int].1,
    {
        let r = search_entries(self.0.as_slice(), key);
        proof {
            lemma_map_of_ascending(self@);
            match r {
                Ok(i) => {
                    assert(keys_of(self@)[i as int] == self@[i as int].0);
                    assert(keys_of(self@).to_set().contains(*key));
                    assert(map_of(self@)[self@[i as int].0] == self@[i as int].1);
                },
                Err(i) => {
                    assert forall|j: int| 0 <= j < self@.len() implies #[trigger] self@[j].0 != *key by {
                        if j < i {
                            lemma_lt_facts(self@[j].0, *key);
                        } else {
                            lemma_lt_facts(*key, self@[j].0);
                        }
                    }
                    lemma_map_of_absent(self@, *key);
                },
            }
        }
        r
    }

    pub fn contains_key(&self, key: &K) -> (r: bool)
        requires
            total_order::<K>(),
            self.wf(),
        ensures
            r == self.as_map().contains_key(*key),
    {
        self.search(key).is_ok()
    }

    pub fn get(&self, key: &K) -> (r: Option<&V>)
        requires
            total_order::<K>(),
            self.wf(),
        ensures
            match r {
                Some(v) => self.as_map().contains_key(*key) && *v == self.as_map()[*key],
                None => !self.as_map().contains_key(*key),
            },
    {
        match self.search(key) {
            Ok(idx) => Some(&self.0[idx].1),
            Err(_) => None,
        }
    }

    /// A mutable reference to the value of `key`; the map keeps its keys.
    pub fn get_mut(&mut self, key: &K) -> (r: Option<&mut V>)
        requires
            total_order::<K>(),
            old(self).wf(),
        ensures
            match r {
                Some(v) => old(self).as_map().contains_key(*key) && *v == old(self).as_map()[*key]
                    && final(self).wf() && final(self).as_map() == old(self).as_map().insert(
                    *key,
                    *final(v),
                ),
                None => !old(self).as_map().contains_key(*key) && *final(self) == *old(self),
            },
    {
        match self.search(key) {
            Ok(idx) => {
                let v = &mut self.0[idx].1;
                proof {
                    lemma_map_of_update(old(self)@, idx as int, *final(v));
                }
                Some(v)
            },
            Err(_) => None,
        }
    }
}

impl<K: Ord, V> VecMap<K, V> {
    /// Maps `key` to `value` and returns the value it replaced, if any.
    pub fn insert(&mut self, key: K, value: V) -> (r: Option<V>)
        requires
            total_order::<K>(),
            old(self).wf(),
        ensures
            final(self).wf(),
            final(self).as_map() == old(self).as_map().insert(key, value),
            r == (if old(self).as_map().contains_key(key) {
                Some(old(self).as_map()[key])
            } else {
                None::<V>
            }),
    {
        match self.search(&key) {
            Ok(idx) => {
                let mut value = value;
                proof {
                    lemma_map_of_update(old(self)@, idx as int, value);
                    assert(old(self)@.update(idx as int, (old(self)@[idx as int].0, value))
                        =~= old(self)@.update(idx as int, (key, value)));
                }
                core::mem::swap(&mut self.0[idx].1, &mut value);
                assert(self@ =~= old(self)@.update(idx as int, (key, self@[idx as int].1)));
                Some(value)
            },
            Err(idx) => {
                proof {
                    let ks = keys_of(old(self)@);
                    assert(keys_of(old(self)@.insert(idx as int, (key, value))) =~= ks.insert(
                        idx as int,
                        key,
                    ));
                    assert forall|j: int| 0 <= j < idx implies lt(#[trigger] ks[j], key) by {
                        assert(ks[j] == old(self)@[j].0);
                    }
                    assert forall|j: int| idx <= j < ks.len() implies lt(key, #[trigger] ks[j]) by {
                        assert(ks[j] == old(self)@[j].0);
                    }
                    lemma_ascending_insert(ks, idx as int, key);
                    lemma_map_of_insert(old(self)@, idx as int, (key, value));
                }
                self.0.insert(idx, (key, value));
                None
            },
        }
    }

    /// Takes the entry of `key` out of the map and returns its value, if any.
    pub fn remove(&mut self, key: &K) -> (r: Option<V>)
        requires
            total_order::<K>(),
            old(self).wf(),
        ensures
            final(self).wf(),
            final(self).as_map() == old(self).as_map().remove(*key),
            r == (if old(self).as_map().contains_key(*key) {
                Some(old(self).as_map()[*key])
            } else {
                None::<V>
            }),
    {
        match self.search(key) {
            Ok(idx) => {
                proof {
                    lemma_map_of_remove(old(self)@, idx as int);
                }
                let entry = self.0.remove(idx);
                Some(entry.1)
            },
            Err(_) => {
                assert(self.as_map() =~= old(self).as_map().remove(*key));
                None
            },
        }
    }

    /// Takes out the entry with the greatest key, if any.
    pub fn remove_max(&mut self) -> (r: Option<(K, V)>)
        requires
            total_order::<K>(),
            old(self).wf(),
        ensures
            final(self).wf(),
            match r {
                None => old(self)@.len() == 0 && final(self)@ == old(self)@,
                Some(e) => {
                    &&& old(self).as_map().contains_key(e.0)
                    &&& old(self).as_map()[e.0] == e.1
                    &&& forall|k: K| #[trigger]
                        old(self).as_map().contains_key(k) && k != e.0 ==> lt(k, e.0)
                    &&& final(self).as_map() == old(self).as_map().remove(e.0)
                },
            },
    {
        proof {
            let s = old(self)@;
            if s.len() > 0 {
                lemma_map_of_ascending(s);
                lemma_map_of_remove(s, s.len() - 1);
                assert(s.remove(s.len() - 1) =~= s.drop_last());
                assert(keys_of(s)[s.len() - 1] == s.last().0);
                assert forall|k: K| #[trigger]
                    map_of(s).contains_key(k) && k != s.last().0 implies lt(k, s.last().0) by {
                    let i = choose|i: int| 0 <= i < keys_of(s).len() && keys_of(s)[i] == k;
                    assert(lt(keys_of(s)[i], keys_of(s)[s.len() - 1]));
                }
            }
        }
        self.0.pop()
    }

    /// Drops every entry whose key is less than `key`: one search, then the
    /// entries that stay are moved to the front of the buffer.
    pub fn remove_less_than(&mut self, key: &K)
        requires
            total_order::<K>(),
            old(self).wf(),
        ensures
            final(self).wf(),
            final(self).as_map() == old(self).as_map().restrict(Set::new(|k: K| !lt(k, *key))),
    {
        let ghost s = old(self)@;
        let found = self.search(key);
        let cnt = match found {
            Ok(i) => i,
            Err(i) => i,
        };
        proof {
            assert forall|j: int| 0 <= j < cnt implies lt(#[trigger] s[j].0, *key) by {
                if found is Ok {
                    assert(lt(keys_of(s)[j], keys_of(s)[cnt as int]));
                }
            }
            assert forall|j: int| cnt <= j < s.len() implies !lt(#[trigger] s[j].0, *key) by {
                if found is Ok && j > cnt {
                    assert(lt(keys_of(s)[cnt as int], keys_of(s)[j]));
                }
                if s[j].0 != *key {
                    lemma_lt_facts(*key, s[j].0);
                } else {
                    lemma_lt_facts(*key, *key);
                }
            }
        }
        let len = self.0.len();
        let keep = len - cnt;
        let mut t: usize = 0;
        while t < keep
            invariant
                len == s.len(),
                self@.len() == len,
                cnt + keep == len,
                t <= keep,
                forall|p: int| 0 <= p < t ==> #[trigger] self@[p] == s[p + cnt],
                forall|p: int| t + cnt <= p < len ==> #[trigger] self@[p] == s[p],
            decreases keep - t,
        {
            if cnt > 0 {
                let (lo, hi) = self.0.as_mut_slice().split_at_mut(t + cnt);
                core::mem::swap(&mut lo[t], &mut hi[0]);
            }
            t += 1;
        }
        self.0.truncate(keep);
        proof {
            let r = self@;
            assert(r =~= s.subrange(cnt as int, len as int));
            let m = map_of(s).restrict(Set::new(|k: K| !lt(k, *key)));
            lemma_map_of_ascending(s);
            assert(keys_of(r) =~= keys_of(s).subrange(cnt as int, len as int));
            lemma_ascending_no_duplicates(keys_of(r));
            assert forall|k: K| keys_of(r).to_set().contains(k) <==> m.dom().contains(k) by {
                if keys_of(r).to_set().contains(k) {
                    let i = choose|i: int| 0 <= i < keys_of(r).len() && keys_of(r)[i] == k;
                    assert(keys_of(s)[i + cnt] == k);
                    assert(s[i + cnt].0 == k);
                    assert(!lt(s[i + cnt].0, *key));
                    assert(keys_of(s).to_set().contains(k));
                }
                if m.dom().contains(k) {
                    assert(map_of(s).dom().contains(k));
                    assert(Set::new(|k: K| !lt(k, *key)).contains(k));
                    assert(!lt(k, *key));
                    let i = choose|i: int| 0 <= i < keys_of(s).len() && keys_of(s)[i] == k;
                    assert(s[i].0 == k);
                    if i >= cnt {
                        assert(keys_of(r)[i - cnt] == k);
                    }
                }
            }
            assert(keys_of(r).to_set() =~= m.dom());
            assert forall|i: int| 0 <= i < r.len() implies m[#[trigger] r[i].0] == r[i].1 by {
                assert(r[i] == s[i + cnt]);
                assert(!lt(s[i + cnt].0, *key));
                assert(keys_of(s)[i + cnt] == s[i + cnt].0);
                assert(keys_of(s).to_set().contains(s[i + cnt].0));
                assert(map_of(s)[s[i + cnt].0] == s[i + cnt].1);
            }
            lemma_map_of_ext(r, m);
        }
    }
}

/// What `merge_copied_with` leaves under `k`: the combination of the two
/// values where both maps hold `k`, else the one value there is.
pub open spec fn merged_value<K, V, F: FnMut(V, V) -> V>(
    a: Map<K, V>,
    b: Map<K, V>,
    f: F,
    k: K,
    v: V,
) -> bool {
    if a.contains_key(k) && b.contains_key(k) {
        call_ensures(f, (a[k], b[k]), v)
    } else if a.contains_key(k) {
        v == a[k]
    } else {
        v == b[k]
    }
}

impl<K: Ord + Copy, V: Copy> VecMap<K, V> {
    /// Merges `other` into the map; where both hold a key, the value becomes
    /// `f(existing, incoming)`. The result is first written past the current
    /// entries, in the same buffer, then moved to its front; the buffer then
    /// holds up to twice the map's length plus `other`'s.
    pub fn merge_copied_with(&mut self, other: &Self, mut f: impl FnMut(V, V) -> V)
        requires
            total_order::<K>(),
            old(self).wf(),
            other.wf(),
            2 * old(self)@.len() + other@.len() <= usize::MAX,
            forall|x: V, y: V| call_requires(f, (x, y)),
        ensures
            final(self).wf(),
            final(self).as_map().dom() == old(self).as_map().dom() + other.as_map().dom(),
            forall|k: K| #[trigger]
                final(self).as_map().contains_key(k) ==> merged_value(
                    old(self).as_map(),
                    other.as_map(),
                    f,
                    k,
                    final(self).as_map()[k],
                ),
    {
        let ghost ma = old(self).as_map();
        let ghost mb = other.as_map();
        let ghost f0 = f;
        let m = self.0.len();
        let n = other.0.len();
        let ghost a = self@;
        let ghost b = other@;
        proof {
            lemma_map_of_ascending(a);
            lemma_map_of_ascending(b);
        }
        if m == 0 {
            let mut t: usize = 0;
            while t < n
                invariant
                    t <= n,
                    n == b.len(),
                    b == other@,
                    self@ == b.take(t as int),
                decreases n - t,
            {
                self.0.push(other.0[t]);
                assert(self@ =~= b.take(t + 1));
                t += 1;
            }
            assert(self@ =~= b);
            assert(ma =~= Map::empty());
            assert(self.as_map().dom() =~= ma.dom() + mb.dom());
            assert(forall|key: K| #[trigger]
                self.as_map().contains_key(key) ==> merged_value(ma, mb, f, key, self.as_map()[key]));
            return;
        }
        let filler = self.0[0];
        grow(&mut self.0, m + n, filler);
        let ghost front;
        let ghost back;
        let mut k: usize = 0;
        {
            let (sa, out) = self.0.as_mut_slice().split_at_mut(m);
            let sb = other.0.as_slice();
            assert(sa@ == a);
            let mut i: usize = 0;
            let mut j: usize = 0;
            let len = out.len();
            while i < m || j < n
                invariant
                    total_order::<K>(),
                    sa@ == a,
                    sb@ == b,
                    keys_ascending(a),
                    keys_ascending(b),
                    ma == map_of(a),
                    mb == map_of(b),
                    ma.dom() == keys_of(a).to_set(),
                    mb.dom() == keys_of(b).to_set(),
                    forall|p: int| 0 <= p < a.len() ==> #[trigger] ma[a[p].0] == a[p].1,
                    forall|p: int| 0 <= p < b.len() ==> #[trigger] mb[b[p].0] == b[p].1,
                    forall|x: V, y: V| call_requires(f, (x, y)),
                    f == f0,
                    m == a.len(),
                    n == b.len(),
                    len == out@.len(),
                    len >= m + n,
                    i <= m,
                    j <= n,
                    k <= i + j,
                    keys_ascending(out@.take(k as int)),
                    keys_of(out@.take(k as int)).to_set() == keys_of(a.take(i as int)).to_set()
                        + keys_of(b.take(j as int)).to_set(),
                    forall|p: int|
                        0 <= p < k ==> merged_value(ma, mb, f, #[trigger] out@[p].0, out@[p].1),
                    k > 0 && i < m ==> lt(out@[k - 1].0, a[i as int].0),
                    k > 0 && j < n ==> lt(out@[k - 1].0, b[j as int].0),
                    forall|q: int| 0 <= q < j && i < m ==> lt(#[trigger] b[q].0, a[i as int].0),
                    forall|p: int| 0 <= p < i && j < n ==> lt(#[trigger] a[p].0, b[j as int].0),
                decreases m + n - i - j,
            {
                let ghost prev = out@.take(k as int);
                let ghost pi = i;
                let ghost pj = j;
                let e: (K, V);
                if i < m && j < n {
                    match sa[i].0.cmp(&sb[j].0) {
                        core::cmp::Ordering::Less => {
                            e = sa[i];
                            i += 1;
                        },
                        core::cmp::Ordering::Greater => {
                            proof {
                                lemma_lt_facts(a[i as int].0, b[j as int].0);
                            }
                            e = sb[j];
                            j += 1;
                        },
                        core::cmp::Ordering::Equal => {
                            let v = f(sa[i].1, sb[j].1);
                            e = (sa[i].0, v);
                            i += 1;
                            j += 1;
                        },
                    }
                } else if i < m {
                    e = sa[i];
                    i += 1;
                } else {
                    e = sb[j];
                    j += 1;
                }
                proof {
                    let ka = keys_of(a);
                    let kb = keys_of(b);
                    // The key of `e` is in `a` exactly when `e` came from `a`, and
                    // likewise for `b`.
                    if i > pi {
                        assert(ka[pi as int] == e.0);
                        assert(ka.to_set().contains(e.0));
                    }
                    if j > pj {
                        assert(kb[pj as int] == e.0);
                        assert(kb.to_set().contains(e.0));
                    }
                    if i == pi {
                        assert forall|p: int| 0 <= p < m implies a[p].0 != e.0 by {
                            if p < pi {
                                lemma_lt_facts(a[p].0, e.0);
                            } else {
                                if p > pi {
                                    assert(lt(ka[pi as int], ka[p]));
                                    lemma_lt_trans(e.0, a[pi as int].0, a[p].0);
                                }
                                lemma_lt_facts(e.0, a[p].0);
                            }
                        }
                        assert(!ka.to_set().contains(e.0));
                    }
                    if j == pj {
                        assert forall|q: int| 0 <= q < n implies b[q].0 != e.0 by {
                            if q < pj {
                                lemma_lt_facts(b[q].0, e.0);
                            } else {
                                if q > pj {
                                    assert(lt(kb[pj as int], kb[q]));
                                    lemma_lt_trans(e.0, b[pj as int].0, b[q].0);
                                }
                                lemma_lt_facts(e.0, b[q].0);
                            }
                        }
                        assert(!kb.to_set().contains(e.0));
                    }
                    assert(merged_value(ma, mb, f, e.0, e.1));
                    // Order facts for the next round.
                    if i > pi && i < m {
                        assert(lt(ka[pi as int], ka[i as int]));
                    }
                    if j > pj && j < n {
                        assert(lt(kb[pj as int], kb[j as int]));
                    }
                    if i < m && j > pj {
                        assert forall|q: int| 0 <= q < j implies lt(#[trigger] b[q].0, a[i as int].0) by {
                            if q < pj && i > pi {
                                lemma_lt_trans(b[q].0, a[pi as int].0, a[i as int].0);
                            }
                            if q == pj && i == pi {
                                lemma_lt_facts(a[i as int].0, b[q].0);
                            }
                        }
                    }
                    if i < m && j == pj && i > pi {
                        assert forall|q: int| 0 <= q < j implies lt(#[trigger] b[q].0, a[i as int].0) by {
                            lemma_lt_trans(b[q].0, a[pi as int].0, a[i as int].0);
                        }
                    }
                    if j < n && i > pi {
                        assert forall|p: int| 0 <= p < i implies lt(#[trigger] a[p].0, b[j as int].0) by {
                            if p < pi && j > pj {
                                lemma_lt_trans(a[p].0, b[pj as int].0, b[j as int].0);
                            }
                        }
                    }
                    if j < n && i == pi && j > pj {
                        assert forall|p: int| 0 <= p < i implies lt(#[trigger] a[p].0, b[j as int].0) by {
                            lemma_lt_trans(a[p].0, b[pj as int].0, b[j as int].0);
                        }
                    }
                    // The written prefix grows by `e`.
                    let kp = keys_of(prev);
                    assert(keys_of(prev.push(e)) =~= kp.push(e.0));
                    if k > 0 {
                        assert(kp.last() == out@[k - 1].0);
                    }
                    lemma_ascending_push(kp, e.0);
                    kp.lemma_push_to_set_commute(e.0);
                    if i > pi {
                        lemma_take_succ_to_set(ka, pi as int);
                    }
                    if j > pj {
                        lemma_take_succ_to_set(kb, pj as int);
                    }
                    assert(keys_of(a.take(i as int)) =~= ka.take(i as int));
                    assert(keys_of(a.take(pi as int)) =~= ka.take(pi as int));
                    assert(keys_of(b.take(j as int)) =~= kb.take(j as int));
                    assert(keys_of(b.take(pj as int)) =~= kb.take(pj as int));
                }
                out[k] = e;
                assert(out@.take(k + 1) =~= prev.push(e));
                k += 1;
                assert(keys_of(out@.take(k as int)).to_set() =~= keys_of(a.take(i as int)).to_set()
                    + keys_of(b.take(j as int)).to_set());
            }
            proof {
                front = sa@;
                back = out@;
                assert(forall|p: int| 0 <= p < k ==> merged_value(ma, mb, f, #[trigger] back[p].0, back[p].1));
                assert(a.take(m as int) =~= a);
                assert(b.take(n as int) =~= b);
            }
        }
        let ghost written = self@;
        assert(written =~= front + back);
        assert(written.subrange(m as int, written.len() as int) =~= back);
        compact(&mut self.0, m, k);
        proof {
            let r = self@;
            assert(r =~= back.take(k as int));
            lemma_map_of_ascending(r);
            assert forall|key: K| #[trigger] self.as_map().contains_key(key) implies merged_value(
                ma,
                mb,
                f,
                key,
                self.as_map()[key],
            ) by {
                let p = choose|p: int| 0 <= p < keys_of(r).len() && keys_of(r)[p] == key;
                assert(r[p] == back[p]);
                assert(r[p].0 == key);
                assert(merged_value(ma, mb, f, back[p].0, back[p].1));
                assert(self.as_map()[key] == r[p].1);
            }
            assert(self.as_map().dom() =~= ma.dom() + mb.dom());
        }
    }
}

/// The values of the entries whose key `keys` holds, in the entries' order.
pub open spec fn values_at<K, V>(s: Seq<(K, V)>, keys: Seq<K>) -> Seq<V> {
    s.filter_map(|e: (K, V)| if keys.contains(e.0) { Some(e.1) } else { None })
}

proof fn lemma_values_at_step<K, V>(s: Seq<(K, V)>, keys: Seq<K>, i: int)
    requires
        0 <= i < s.len(),
    ensures
        values_at(s.take(i + 1), keys) == if keys.contains(s[i].0) {
            values_at(s.take(i), keys).push(s[i].1)
        } else {
            values_at(s.take(i), keys)
        },
{
    assert(s.take(i + 1).drop_last() =~= s.take(i));
    if keys.contains(s[i].0) {
        assert(values_at(s.take(i), keys) + seq![s[i].1] =~= values_at(s.take(i), keys).push(s[i].1));
    }
}

proof fn lemma_values_at_rest<K, V>(s: Seq<(K, V)>, keys: Seq<K>, i: int)
    requires
        0 <= i <= s.len(),
        forall|p: int| i <= p < s.len() ==> !keys.contains(#[trigger] s[p].0),
    ensures
        values_at(s, keys) == values_at(s.take(i), keys),
    decreases s.len() - i,
{
    if s.len() == i {
        assert(s.take(i) =~= s);
    } else {
        let t = s.drop_last();
        assert(s.last() == s[s.len() - 1]);
        lemma_values_at_rest(t, keys, i);
        assert(t.take(i) =~= s.take(i));
    }
}

impl<K: Ord, V> VecMap<K, V> {
    /// Calls `f` on the value of each key that `keys` holds, in ascending key
    /// order, in one sweep over both. The ghost result is the sequence of the
    /// values that `f` was called on.
    pub fn apply(&self, keys: &VecSet<K>, mut f: impl FnMut(&V)) -> (visited: Ghost<Seq<V>>)
        requires
            total_order::<K>(),
            self.wf(),
            keys.wf(),
            forall|v: &V| call_requires(f, (v,)),
        ensures
            visited@ == values_at(self@, keys@),
    {
        let ghost s = self@;
        let ghost ks = keys@;
        let ghost f0 = f;
        let ghost mut visited: Seq<V> = Seq::empty();
        let entries = self.0.as_slice();
        let wanted = keys.as_slice();
        let m = entries.len();
        let n = wanted.len();
        let mut i: usize = 0;
        let mut j: usize = 0;
        while i < m && j < n
            invariant
                total_order::<K>(),
                entries@ == s,
                wanted@ == ks,
                keys_ascending(s),
                strictly_ascending(ks),
                m == s.len(),
                n == ks.len(),
                i <= m,
                j <= n,
                f == f0,
                forall|v: &V| call_requires(f, (v,)),
                visited == values_at(s.take(i as int), ks),
                forall|q: int| 0 <= q < j && i < m ==> lt(#[trigger] ks[q], s[i as int].0),
            decreases m + n - i - j,
        {
            proof {
                lemma_values_at_step(s, ks, i as int);
                assert(keys_of(s)[i as int] == s[i as int].0);
                if i + 1 < m {
                    assert(lt(keys_of(s)[i as int], keys_of(s)[i + 1]));
                }
            }
            match entries[i].0.cmp(&wanted[j]) {
                core::cmp::Ordering::Less => {
                    proof {
                        assert forall|q: int| 0 <= q < n implies ks[q] != s[i as int].0 by {
                            if q < j {
                                lemma_lt_facts(ks[q], s[i as int].0);
                            } else {
                                if q > j {
                                    lemma_lt_trans(s[i as int].0, ks[j as int], ks[q]);
                                }
                                lemma_lt_facts(s[i as int].0, ks[q]);
                            }
                        }
                        if i + 1 < m {
                            assert forall|q: int| 0 <= q < j implies lt(#[trigger] ks[q], s[i + 1].0) by {
                                lemma_lt_trans(ks[q], s[i as int].0, s[i + 1].0);
                            }
                        }
                    }
                    i += 1;
                },
                core::cmp::Ordering::Greater => {
                    proof {
                        lemma_lt_facts(s[i as int].0, ks[j as int]);
                    }
                    j += 1;
                },
                core::cmp::Ordering::Equal => {
                    f(&entries[i].1);
                    proof {
                        visited = visited.push(s[i as int].1);
                        if i + 1 < m {
                            assert forall|q: int| 0 <= q < j + 1 implies lt(#[trigger] ks[q], s[i + 1].0) by {
                                if q < j {
                                    lemma_lt_trans(ks[q], s[i as int].0, s[i + 1].0);
                                }
                            }
                        }
                    }
                    i += 1;
                    j += 1;
                },
            }
        }
        proof {
            if i < m {
                assert forall|p: int| i <= p < s.len() implies !ks.contains(#[trigger] s[p].0) by {
                    if p > i {
                        assert(lt(keys_of(s)[i as int], keys_of(s)[p]));
                    }
                    if ks.contains(s[p].0) {
                        let q = choose|q: int| 0 <= q < ks.len() && ks[q] == s[p].0;
                        if p > i {
                            lemma_lt_trans(ks[q], s[i as int].0, s[p].0);
                        }
                        lemma_lt_facts(ks[q], s[p].0);
                    }
                }
            }
            lemma_values_at_rest(s, ks, i as int);
        }
        Ghost(visited)
    }
}

/// The place of one key in a map, found by `VecMap::entry`: either the
/// entry that holds it or the position where it would go.
pub enum Entry<'a, K, V> {
    Vacant(VacantEntry<'a, K, V>),
    Occupied(OccupiedEntry<'a, K, V>),
}

/// The position where an absent key would go. The fields are public so
/// that contracts can speak of the borrowed map; the methods ask for `wf`.
pub struct VacantEntry<'a, K, V> {
    pub map: &'a mut VecMap<K, V>,
    pub idx: usize,
    pub key: K,
}

/// The entry that holds a present key. The fields are public so that
/// contracts can speak of the borrowed map; the methods ask for `wf`.
pub struct OccupiedEntry<'a, K, V> {
    pub map: &'a mut VecMap<K, V>,
    pub idx: usize,
}

impl<'a, K, V> VacantEntry<'a, K, V> {
    /// The key is absent and belongs at position `idx`.
    pub open spec fn wf(&self) -> bool
        where K: Ord,
    {
        &&& self.map.wf()
        &&& self.idx <= self.map@.len()
        &&& forall|j: int| 0 <= j < self.idx ==> lt(#[trigger] self.map@[j].0, self.key)
        &&& forall|j: int| self.idx <= j < self.map@.len() ==> lt(self.key, #[trigger] self.map@[j].0)
    }
}

impl<'a, K, V> OccupiedEntry<'a, K, V> {
    /// The key of the entry.
    pub open spec fn entry_key(&self) -> K {
        self.map@[self.idx as int].0
    }

    /// The entry lies within the map.
    pub open spec fn wf(&self) -> bool
        where K: Ord,
    {
        &&& self.map.wf()
        &&& self.idx < self.map@.len()
    }
}

impl<K: Ord, V> VecMap<K, V> {
    /// Looks `key` up once, for a later read or write at that place.
    pub fn entry(&mut self, key: K) -> (r: Entry<'_, K, V>)
        requires
            total_order::<K>(),
            old(self).wf(),
        ensures
            match r {
                Entry::Vacant(e) => {
                    &&& e.wf()
                    &&& *e.map == *old(self)
                    &&& e.key == key
                    &&& !old(self).as_map().contains_key(key)
                    &&& *final(self) == *final(e.map)
                },
                Entry::Occupied(e) => {
                    &&& e.wf()
                    &&& *e.map == *old(self)
                    &&& e.entry_key() == key
                    &&& old(self).as_map().contains_key(key)
                    &&& *final(self) == *final(e.map)
                },
            },
    {
        match self.search(&key) {
            Ok(idx) => Entry::Occupied(OccupiedEntry { map: self, idx }),
            Err(idx) => Entry::Vacant(VacantEntry { map: self, idx, key }),
        }
    }
}

impl<'a, K: Ord, V> VacantEntry<'a, K, V> {
    /// The key that was looked up.
    pub fn key(&self) -> (r: &K)
        ensures
            *r == self.key,
    {
        &self.key
    }

    /// Gives the key back and leaves the map as it was.
    pub fn into_key(self) -> (r: K)
        ensures
            r == self.key,
            *final(self.map) == *old(self.map),
    {
        self.key
    }

    /// Adds the key with `value` at its place and returns a reference to the
    /// value.
    pub fn insert(self, value: V) -> (r: &'a mut V)
        requires
            total_order::<K>(),
            self.wf(),
        ensures
            *r == value,
            final(self.map).wf(),
            final(self.map).as_map() == old(self.map).as_map().insert(self.key, *final(r)),
    {
        let ghost s = self.map@;
        let ghost key = self.key;
        let idx = self.idx;
        let map = self.map;
        proof {
            let ks = keys_of(s);
            assert(keys_of(s.insert(idx as int, (key, value))) =~= ks.insert(idx as int, key));
            assert forall|j: int| 0 <= j < idx implies lt(#[trigger] ks[j], key) by {
                assert(ks[j] == s[j].0);
            }
            assert forall|j: int| idx <= j < ks.len() implies lt(key, #[trigger] ks[j]) by {
                assert(ks[j] == s[j].0);
            }
            lemma_ascending_insert(ks, idx as int, key);
        }
        map.0.insert(idx, (self.key, value));
        let ghost t = map@;
        let v = &mut map.0[idx].1;
        proof {
            lemma_map_of_insert(s, idx as int, (key, value));
            lemma_map_of_update(t, idx as int, *final(v));
            assert(t.update(idx as int, (t[idx as int].0, *final(v))) =~= t.update(
                idx as int,
                (key, *final(v)),
            ));
        }
        v
    }
}

impl<'a, K: Ord, V> OccupiedEntry<'a, K, V> {
    /// The key of the entry.
    pub fn key(&self) -> (r: &K)
        requires
            self.wf(),
        ensures
            *r == self.entry_key(),
    {
        &self.map.0[self.idx].0
    }

    /// The value of the entry.
    pub fn get(&self) -> (r: &V)
        requires
            total_order::<K>(),
            self.wf(),
        ensures
            *r == old(self.map).as_map()[self.entry_key()],
    {
        proof {
            lemma_map_of_ascending(self.map@);
        }
        &self.map.0[self.idx].1
    }

    /// A mutable reference to the value of the entry.
    pub fn get_mut(&mut self) -> (r: &mut V)
        requires
            total_order::<K>(),
            old(self).wf(),
        ensures
            *r == old(self).map.as_map()[old(self).entry_key()],
            final(self).wf(),
            final(self).idx == old(self).idx,
            final(self).entry_key() == old(self).entry_key(),
            final(self).map.as_map() == old(self).map.as_map().insert(
                old(self).entry_key(),
                *final(r),
            ),
            *final(final(self).map) == *final(old(self).map),
    {
        proof {
            lemma_map_of_ascending(self.map@);
        }
        let idx = self.idx;
        let v = &mut self.map.0[idx].1;
        proof {
            lemma_map_of_update(old(self).map@, idx as int, *final(v));
        }
        v
    }

    /// Replaces the value of the entry and returns the old one.
    pub fn insert(&mut self, value: V) -> (r: V)
        requires
            total_order::<K>(),
            old(self).wf(),
        ensures
            r == old(self).map.as_map()[old(self).entry_key()],
            final(self).wf(),
            final(self).idx == old(self).idx,
            final(self).entry_key() == old(self).entry_key(),
            final(self).map.as_map() == old(self).map.as_map().insert(old(self).entry_key(), value),
            *final(final(self).map) == *final(old(self).map),
    {
        let mut value = value;
        let v = self.get_mut();
        core::mem::swap(v, &mut value);
        value
    }

    /// Turns the entry into a mutable reference to its value.
    pub fn into_mut(self) -> (r: &'a mut V)
        requires
            total_order::<K>(),
            self.wf(),
        ensures
            *r == old(self.map).as_map()[self.entry_key()],
            final(self.map).wf(),
            final(self.map).as_map() == old(self.map).as_map().insert(self.entry_key(), *final(r)),
    {
        proof {
            lemma_map_of_ascending(self.map@);
        }
        let idx = self.idx;
        let map = self.map;
        let ghost s = map@;
        let v = &mut map.0[idx].1;
        proof {
            lemma_map_of_update(s, idx as int, *final(v));
        }
        v
    }

    /// Takes the entry out of the map and returns its value.
    pub fn remove(self) -> (r: V)
        requires
            total_order::<K>(),
            self.wf(),
        ensures
            r == old(self.map).as_map()[self.entry_key()],
            final(self.map).wf(),
            final(self.map).as_map() == old(self.map).as_map().remove(self.entry_key()),
    {
        self.remove_entry().1
    }

    /// Takes the entry out of the map and returns it.
    pub fn remove_entry(self) -> (r: (K, V))
        requires
            total_order::<K>(),
            self.wf(),
        ensures
            r.0 == self.entry_key(),
            r.1 == old(self.map).as_map()[self.entry_key()],
            final(self.map).wf(),
            final(self.map).as_map() == old(self.map).as_map().remove(self.entry_key()),
    {
        proof {
            lemma_map_of_ascending(self.map@);
            lemma_map_of_remove(self.map@, self.idx as int);
        }
        self.map.0.remove(self.idx)
    }
}

impl<'a, K, V> Entry<'a, K, V> {
    /// The key that was looked up.
    pub open spec fn entry_key(&self) -> K {
        match self {
            Entry::Vacant(e) => e.key,
            Entry::Occupied(e) => e.entry_key(),
        }
    }

    pub open spec fn wf(&self) -> bool
        where K: Ord,
    {
        match self {
            Entry::Vacant(e) => e.wf(),
            Entry::Occupied(e) => e.wf(),
        }
    }
}

impl<'a, K: Ord, V> Entry<'a, K, V> {
    /// The key that was looked up.
    pub fn key(&self) -> (r: &K)
        requires
            self.wf(),
        ensures
            *r == self.entry_key(),
    {
        match self {
            Entry::Vacant(e) => e.key(),
            Entry::Occupied(e) => e.key(),
        }
    }

    /// Applies `f` to the value when the key is present; the place stays the
    /// same.
    pub fn and_modify(self, f: impl FnOnce(&mut V)) -> (r: Self)
        requires
            total_order::<K>(),
            self.wf(),
            forall|x: &mut V| call_requires(f, (x,)),
        ensures
            r.wf(),
            match (self, r) {
                (Entry::Vacant(e), Entry::Vacant(e2)) => e2 == e,
                (Entry::Occupied(e), Entry::Occupied(e2)) => {
                    &&& e2.idx == e.idx
                    &&& e2.entry_key() == e.entry_key()
                    &&& *final(e2.map) == *final(e.map)
                    &&& exists|x: &mut V|
                        *x == (*e.map).as_map()[e.entry_key()] && call_ensures(f, (x,), ())
                            && e2.map.as_map() == (*e.map).as_map().insert(
                            e.entry_key(),
                            *final(x),
                        )
                },
                _ => false,
            },
    {
        match self {
            Entry::Occupied(mut e) => {
                let v = e.get_mut();
                f(v);
                Entry::Occupied(e)
            },
            Entry::Vacant(e) => Entry::Vacant(e),
        }
    }

    /// A reference to the value, after inserting `default` if the key is
    /// absent.
    pub fn or_insert(self, default: V) -> (r: &'a mut V)
        requires
            total_order::<K>(),
            self.wf(),
        ensures
            match self {
                Entry::Vacant(e) => {
                    &&& *r == default
                    &&& final(e.map).wf()
                    &&& final(e.map).as_map() == (*e.map).as_map().insert(e.key, *final(r))
                },
                Entry::Occupied(e) => {
                    &&& *r == (*e.map).as_map()[e.entry_key()]
                    &&& final(e.map).wf()
                    &&& final(e.map).as_map() == (*e.map).as_map().insert(
                        e.entry_key(),
                        *final(r),
                    )
                },
            },
    {
        match self {
            Entry::Vacant(e) => e.insert(default),
            Entry::Occupied(e) => e.into_mut(),
        }
    }

    /// A reference to the value, after inserting what `default` returns if
    /// the key is absent.
    pub fn or_insert_with(self, default: impl FnOnce() -> V) -> (r: &'a mut V)
        requires
            total_order::<K>(),
            self.wf(),
            call_requires(default, ()),
        ensures
            match self {
                Entry::Vacant(e) => {
                    &&& call_ensures(default, (), *r)
                    &&& final(e.map).wf()
                    &&& final(e.map).as_map() == (*e.map).as_map().insert(e.key, *final(r))
                },
                Entry::Occupied(e) => {
                    &&& *r == (*e.map).as_map()[e.entry_key()]
                    &&& final(e.map).wf()
                    &&& final(e.map).as_map() == (*e.map).as_map().insert(
                        e.entry_key(),
                        *final(r),
                    )
                },
            },
    {
        match self {
            Entry::Vacant(e) => {
                let v = default();
                e.insert(v)
            },
            Entry::Occupied(e) => e.into_mut(),
        }
    }

    /// A reference to the value, after inserting what `default` returns for
    /// the key if the key is absent.
    pub fn or_insert_with_key(self, default: impl FnOnce(&K) -> V) -> (r: &'a mut V)
        requires
            total_order::<K>(),
            self.wf(),
            self matches Entry::Vacant(e) ==> call_requires(default, (&e.key,)),
        ensures
            match self {
                Entry::Vacant(e) => {
                    &&& call_ensures(default, (&e.key,), *r)
                    &&& final(e.map).wf()
                    &&& final(e.map).as_map() == (*e.map).as_map().insert(e.key, *final(r))
                },
                Entry::Occupied(e) => {
                    &&& *r == (*e.map).as_map()[e.entry_key()]
                    &&& final(e.map).wf()
                    &&& final(e.map).as_map() == (*e.map).as_map().insert(
                        e.entry_key(),
                        *final(r),
                    )
                },
            },
    {
        match self {
            Entry::Vacant(e) => {
                let v = default(&e.key);
                e.insert(v)
            },
            Entry::Occupied(e) => e.into_mut(),
        }
    }

    /// A reference to the value, after inserting `V::default()` if the key
    /// is absent.
    pub fn or_default(self) -> (r: &'a mut V)
        where V: Default,
        requires
            total_order::<K>(),
            self.wf(),
        ensures
            match self {
                Entry::Vacant(e) => {
                    &&& final(e.map).wf()
                    &&& final(e.map).as_map() == (*e.map).as_map().insert(e.key, *final(r))
                },
                Entry::Occupied(e) => {
                    &&& *r == (*e.map).as_map()[e.entry_key()]
                    &&& final(e.map).wf()
                    &&& final(e.map).as_map() == (*e.map).as_map().insert(
                        e.entry_key(),
                        *final(r),
                    )
                },
            },
    {
        match self {
            Entry::Vacant(e) => e.insert(V::default()),
            Entry::Occupied(e) => e.into_mut(),
        }
    }
}

/// The entries of a `VecMap` that are still to be visited, in ascending key
/// order.
pub struct Iter<'a, K, V> {
    entries: &'a [(K, V)],
    pos: usize,
}

impl<'a, K, V> View for Iter<'a, K, V> {
    type V = Seq<(K, V)>;

    closed spec fn view(&self) -> Seq<(K, V)> {
        self.entries@.subrange(self.pos as int, self.entries@.len() as int)
    }
}

impl<'a, K, V> Iter<'a, K, V> {
    pub closed spec fn wf(&self) -> bool {
        self.pos <= self.entries@.len()
    }

    /// The number of entries still to be visited.
    pub fn len(&self) -> (r: usize)
        requires
            self.wf(),
        ensures
            r == self@.len(),
    {
        self.entries.len() - self.pos
    }

    /// Takes the entry with the smallest key that is left.
    pub fn next(&mut self) -> (r: Option<&'a (K, V)>)
        requires
            old(self).wf(),
        ensures
            final(self).wf(),
            match r {
                None => old(self)@.len() == 0 && final(self)@ == old(self)@,
                Some(e) => old(self)@.len() > 0 && *e == old(self)@[0] && final(self)@ == old(
                    self,
                )@.drop_first(),
            },
    {
        if self.pos == self.entries.len() {
            return None;
        }
        let i = self.pos;
        self.pos = i + 1;
        assert(self@ =~= old(self)@.drop_first());
        Some(&self.entries[i])
    }
}

/// The entries of a `VecMap` that are still to be handed out, in ascending
/// key order, owned.
pub struct IntoIter<K, V> {
    rev: Vec<(K, V)>,
}

impl<K, V> View for IntoIter<K, V> {
    type V = Seq<(K, V)>;

    closed spec fn view(&self) -> Seq<(K, V)> {
        self.rev@.reverse()
    }
}

impl<K, V> IntoIter<K, V> {
    /// The number of entries still to be handed out.
    pub fn len(&self) -> (r: usize)
        ensures
            r == self@.len(),
    {
        self.rev.len()
    }

    /// Hands out the entry with the smallest key that is left.
    pub fn next(&mut self) -> (r: Option<(K, V)>)
        ensures
            match r {
                None => old(self)@.len() == 0 && final(self)@ == old(self)@,
                Some(e) => old(self)@.len() > 0 && e == old(self)@[0] && final(self)@ == old(
                    self,
                )@.drop_first(),
            },
    {
        let r = self.rev.pop();
        proof {
            if r is None {
                assert(self@ =~= old(self)@);
            } else {
                assert(self@ =~= old(self)@.drop_first());
            }
        }
        r
    }
}

impl<K, V> VecMap<K, V> {
    /// Visits the entries in ascending key order.
    pub fn iter(&self) -> (r: Iter<'_, K, V>)
        ensures
            r.wf(),
            r@ == self@,
    {
        let r = Iter { entries: self.0.as_slice(), pos: 0 };
        assert(r@ =~= self@);
        r
    }

    /// Hands out the entries in ascending key order.
    pub fn into_iter(self) -> (r: IntoIter<K, V>)
        ensures
            r@ == self@,
    {
        let r = IntoIter { rev: reversed(self.0) };
        assert(r@ =~= self@);
        r
    }
}

impl<K, V> Default for VecMap<K, V> {
    fn default() -> (r: Self)
        ensures
            r@ == Seq::<(K, V)>::empty(),
    {
        VecMap::new()
    }
}

/// The entries of a `VecMap` that are still to be visited, in ascending key
/// order, handed out as mutable references. A caller that changes a key so
/// that the order breaks leaves a map that is no longer well formed. The
/// field is public so that contracts can speak of the borrowed entries.
pub struct IterMut<'a, K, V> {
    pub rest: Option<&'a mut [(K, V)]>,
}

impl<'a, K, V> IterMut<'a, K, V> {
    /// Takes the first entry that is left.
    pub fn next(&mut self) -> (r: Option<&'a mut (K, V)>)
        ensures
            match old(self).rest {
                None => r is None && final(self).rest is None,
                Some(s) => if s@.len() == 0 {
                    r is None && final(self).rest is None && final(s)@ == s@
                } else {
                    &&& r is Some
                    &&& final(self).rest is Some
                    &&& *r.unwrap() == s@[0]
                    &&& final(self).rest.unwrap()@ == s@.drop_first()
                    &&& final(s)@ == seq![*final(r.unwrap())] + final(final(self).rest.unwrap())@
                },
            },
    {
        match self.rest.take() {
            None => None,
            Some(s) => {
                if s.len() == 0 {
                    None
                } else {
                    let (head, tail) = s.split_at_mut(1);
                    let ghost head_after = final(head)@;
                    self.rest = Some(tail);
                    let r = head.first_mut();
                    proof {
                        assert(head_after =~= seq![*final(r.unwrap())]);
                    }
                    r
                }
            },
        }
    }
}

impl<K, V> VecMap<K, V> {
    /// Visits the entries in ascending key order through mutable references.
    pub fn iter_mut(&mut self) -> (r: IterMut<'_, K, V>)
        ensures
            r.rest is Some,
            r.rest.unwrap()@ == old(self)@,
            final(self)@ == final(r.rest.unwrap())@,
    {
        IterMut { rest: Some(self.0.as_mut_slice()) }
    }
}

/// A map rebuilt by `from_vec` from the entries of a map equals it, whatever
/// order the entries came in.
pub proof fn lemma_from_vec_round_trip<K: Ord, V>(m: VecMap<K, V>, r: VecMap<K, V>)
    requires
        total_order::<K>(),
        m.wf(),
        r.wf(),
        r.as_map() == map_of(m@),
    ensures
        r@ == m@,
{
    lemma_entries_unique(r@, m@);
}

/// After `insert(k, v)`, looking up `k` finds `v`, and looking up any other
/// key finds what it found before.
pub proof fn lemma_lookup_after_insert<K: Ord, V>(
    before: VecMap<K, V>,
    after: VecMap<K, V>,
    k: K,
    v: V,
    probe: K,
)
    requires
        after.as_map() == before.as_map().insert(k, v),
    ensures
        after.as_map().contains_key(k),
        after.as_map()[k] == v,
        probe != k ==> after.as_map().contains_key(probe) == before.as_map().contains_key(probe),
        probe != k && before.as_map().contains_key(probe) ==> after.as_map()[probe]
            == before.as_map()[probe],
{
}

/// After `remove(k)`, looking up `k` finds nothing, and looking up any other
/// key finds what it found before.
pub proof fn lemma_lookup_after_remove<K: Ord, V>(
    before: VecMap<K, V>,
    after: VecMap<K, V>,
    k: K,
    probe: K,
)
    requires
        after.as_map() == before.as_map().remove(k),
    ensures
        !after.as_map().contains_key(k),
        probe != k ==> after.as_map().contains_key(probe) == before.as_map().contains_key(probe),
        probe != k && before.as_map().contains_key(probe) ==> after.as_map()[probe]
            == before.as_map()[probe],
{
}

/// One call that changes a map's contents: `insert(k, v)` or `remove(k)`.
pub enum Edit<K, V> {
    Insert(K, V),
    Remove(K),
}

impl<K, V> Edit<K, V> {
    pub open spec fn key(self) -> K {
        match self {
            Edit::Insert(k, _) => k,
            Edit::Remove(k) => k,
        }
    }
}

/// The map after `edits`, applied in order to `m`; this is how `insert` and
/// `remove` change `as_map()`.
pub open spec fn replay<K, V>(m: Map<K, V>, edits: Seq<Edit<K, V>>) -> Map<K, V>
    decreases edits.len(),
{
    if edits.len() == 0 {
        m
    } else {
        let before = replay(m, edits.drop_last());
        match edits.last() {
            Edit::Insert(k, v) => before.insert(k, v),
            Edit::Remove(k) => before.remove(k),
        }
    }
}

/// The last edit of `k` among `edits`, if any.
pub open spec fn last_edit<K, V>(edits: Seq<Edit<K, V>>, k: K) -> Option<Edit<K, V>>
    decreases edits.len(),
{
    if edits.len() == 0 {
        None
    } else if edits.last().key() == k {
        Some(edits.last())
    } else {
        last_edit(edits.drop_last(), k)
    }
}

/// Lookup after any sequence of inserts and removes, starting from an empty
/// map: a key whose last edit is `insert(k, v)` finds `v`; a key that was
/// never edited, or whose last edit is `remove(k)`, finds nothing.
pub proof fn lemma_lookup_after_edits<K, V>(edits: Seq<Edit<K, V>>, k: K)
    ensures
        match last_edit(edits, k) {
            Some(Edit::Insert(_, v)) => replay(Map::empty(), edits).contains_key(k) && replay(
                Map::empty(),
                edits,
            )[k] == v,
            _ => !replay(Map::empty(), edits).contains_key(k),
        },
    decreases edits.len(),
{
    if edits.len() > 0 {
        lemma_lookup_after_edits(edits.drop_last(), k);
    }
}

/// The map of a sequence of entries holds, for each key, the value of the
/// last entry with that key: the map that `from_vec` builds.
pub proof fn lemma_from_vec_last_wins<K, V>(v: Seq<(K, V)>, i: int)
    requires
        0 <= i < v.len(),
        forall|j: int| i < j < v.len() ==> #[trigger] v[j].0 != v[i].0,
    ensures
        map_of(v).contains_key(v[i].0),
        map_of(v)[v[i].0] == v[i].1,
    decreases v.len(),
{
    if i < v.len() - 1 {
        assert(v.last() == v[v.len() - 1]);
        lemma_from_vec_last_wins(v.drop_last(), i);
    }
}

/// Merging is commutative over keys: merging `b` into `a` and `a` into `b`
/// give the same keys in the same order.
pub proof fn lemma_merge_keys_commutative<K: Ord, V>(
    a: VecMap<K, V>,
    b: VecMap<K, V>,
    ab: VecMap<K, V>,
    ba: VecMap<K, V>,
)
    requires
        total_order::<K>(),
        ab.wf(),
        ba.wf(),
        ab.as_map().dom() == a.as_map().dom() + b.as_map().dom(),
        ba.as_map().dom() == b.as_map().dom() + a.as_map().dom(),
    ensures
        keys_of(ab@) == keys_of(ba@),
{
    lemma_map_of_ascending(ab@);
    lemma_map_of_ascending(ba@);
    assert(keys_of(ab@).to_set() =~= keys_of(ba@).to_set());
    lemma_ascending_unique(keys_of(ab@), keys_of(ba@));
}

} // verus!
