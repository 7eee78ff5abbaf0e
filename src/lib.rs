//! Ordered containers kept in contiguous memory: a set and two maps whose
//! keys stay strictly ascending, with binary-search lookup and linear-time
//! set algebra.
pub mod entries;
pub mod iter;
pub mod kernel;
pub mod order;
pub mod sorting;
pub mod vecmap;
pub mod vecset;

use vstd::prelude::*;

use crate::entries::{
    keys_ascending, keys_of, lemma_entries_unique, lemma_map_of_absent, lemma_map_of_ascending,
    lemma_map_of_insert, lemma_map_of_remove, lemma_map_of_update, map_of,
};
use crate::iter::Iter;
use crate::order::{
    binary_search, lemma_ascending_insert, lemma_lt_facts, lemma_lt_trans, lt, total_order,
};
use crate::sorting::sort_dedup_entries;

verus! {

/// A map held as two vectors of the same length, keys in strictly ascending
/// order and values at the same positions.
pub struct OrderedVecMap<K, V> {
    keys: Vec<K>,
    values: Vec<V>,
}

/// The entries that two parallel vectors hold.
pub open spec fn zip_entries<K, V>(keys: Seq<K>, values: Seq<V>) -> Seq<(K, V)> {
    Seq::new(keys.len(), |i: int| (keys[i], values[i]))
}

impl<K, V> View for OrderedVecMap<K, V> {
    type V = Seq<(K, V)>;

    closed spec fn view(&self) -> Seq<(K, V)> {
        zip_entries(self.keys@, self.values@)
    }
}

/// Splits entries into a vector of keys and one of values.
fn unzip_entries<K, V>(mut kv: Vec<(K, V)>) -> (r: (Vec<K>, Vec<V>))
    ensures
        r.0@.len() == kv@.len(),
        r.1@.len() == kv@.len(),
        zip_entries(r.0@, r.1@) == kv@,
{
    let ghost s = kv@;
    let n = kv.len();
    let mut rev_keys: Vec<K> = Vec::with_capacity(n);
    let mut rev_values: Vec<V> = Vec::with_capacity(n);
    while kv.len() > 0
        invariant
            kv@ == s.take(kv@.len() as int),
            kv@.len() <= s.len(),
            rev_keys@.len() == s.len() - kv@.len(),
            rev_values@.len() == s.len() - kv@.len(),
            forall|p: int| 0 <= p < rev_keys@.len() ==> #[trigger] rev_keys@[p] == s[s.len() - 1 - p].0,
            forall|p: int| 0 <= p < rev_values@.len() ==> #[trigger] rev_values@[p] == s[s.len() - 1 - p].1,
        decreases kv@.len(),
    {
        let (k, v) = kv.pop().unwrap();
        rev_keys.push(k);
        rev_values.push(v);
        assert(kv@ =~= s.take(kv@.len() as int));
    }
    let mut keys: Vec<K> = Vec::with_capacity(n);
    let mut values: Vec<V> = Vec::with_capacity(n);
    while rev_keys.len() > 0
        invariant
            rev_keys@.len() == rev_values@.len(),
            keys@.len() == values@.len(),
            keys@.len() + rev_keys@.len() == s.len(),
            forall|p: int| 0 <= p < rev_keys@.len() ==> #[trigger] rev_keys@[p] == s[s.len() - 1 - p].0,
            forall|p: int| 0 <= p < rev_values@.len() ==> #[trigger] rev_values@[p] == s[s.len() - 1 - p].1,
            forall|p: int| 0 <= p < keys@.len() ==> #[trigger] keys@[p] == s[p].0,
            forall|p: int| 0 <= p < values@.len() ==> #[trigger] values@[p] == s[p].1,
        decreases rev_keys@.len(),
    {
        let k = rev_keys.pop().unwrap();
        let v = rev_values.pop().unwrap();
        keys.push(k);
        values.push(v);
    }
    assert(zip_entries(keys@, values@) =~= s);
    (keys, values)
}

impl<K, V> OrderedVecMap<K, V> {
    /// The vector of keys and that of values have the same length.
    pub closed spec fn aligned(&self) -> bool {
        self.keys@.len() == self.values@.len()
    }

    /// The vectors are aligned and the keys strictly ascend.
    pub open spec fn wf(&self) -> bool
        where K: Ord,
    {
        self.aligned() && keys_ascending(self@)
    }

    /// The map that the entries describe.
    pub open spec fn as_map(&self) -> Map<K, V> {
        map_of(self@)
    }

    pub fn new() -> (r: Self)
        ensures
            r.aligned(),
            r@ == Seq::<(K, V)>::empty(),
    {
        let r = OrderedVecMap { keys: Vec::new(), values: Vec::new() };
        assert(r@ =~= Seq::<(K, V)>::empty());
        r
    }

    /// The keys, in ascending order.
    pub fn keys_slice(&self) -> (r: &[K])
        ensures
            r@ == keys_of(self@),
    {
        proof {
            self.lemma_keys_view();
        }
        self.keys.as_slice()
    }

    /// The values, at the positions of their keys.
    pub fn values_slice(&self) -> (r: &[V])
        requires
            self.aligned(),
        ensures
            r@ == self@.map_values(|e: (K, V)| e.1),
    {
        proof {
            self.lemma_keys_view();
        }
        self.values.as_slice()
    }

    pub fn len(&self) -> (r: usize)
        ensures
            r == self@.len(),
    {
        self.keys.len()
    }

    pub fn is_empty(&self) -> (r: bool)
        ensures
            r == (self@.len() == 0),
    {
        self.keys.len() == 0
    }

    proof fn lemma_keys_view(&self)
        ensures
            keys_of(self@) == self.keys@,
            self.keys@.len() == self.values@.len() ==> self@.map_values(|e: (K, V)| e.1)
                == self.values@,
    {
        assert(keys_of(self@) =~= self.keys@);
        if self.keys@.len() == self.values@.len() {
            assert(self@.map_values(|e: (K, V)| e.1) =~= self.values@);
        }
    }

    /// Visits the entries in ascending key order, or from the back.
    pub fn iter(&self) -> (r: Iter<'_, K, V>)
        requires
            self.aligned(),
        ensures
            r.wf(),
            r@ == self@,
    {
        Iter::new(self.keys.as_slice(), self.values.as_slice())
    }
}

impl<K: Ord, V> OrderedVecMap<K, V> {
    /// Builds the map of the entries of `kv`, in any order; of two entries
    /// with the same key the later one is kept.
    pub fn from_vec(kv: Vec<(K, V)>) -> (r: Self)
        requires
            total_order::<K>(),
        ensures
            r.wf(),
            r.as_map() == map_of(kv@),
    {
        let sorted = sort_dedup_entries(kv);
        let (keys, values) = unzip_entries(sorted);
        OrderedVecMap { keys, values }
    }

    fn search(&self, key: &K) -> (r: Result<usize, usize>)
        requires
            total_order::<K>(),
            self.wf(),
        ensures
            match r {
                Ok(i) => i < self@.len() && self@[i as int].0 == *key,
                Err(i) => i <= self@.len() && (forall|j: int|
                    0 <= j < i ==> lt(#[trigger] self@[j].0, *key)) && (forall|j: int|
                    i <= j < self@.len() ==> lt(*key, #[trigger] self@[j].0)),
            },
            r is Err ==> !self.as_map().contains_key(*key),
            r is Ok ==> self.as_map().contains_key(*key) && self.as_map()[*key]
                == self@[r->Ok_0 as int].1,
    {
        proof {
            self.lemma_keys_view();
        }
        let r = binary_search(self.keys.as_slice(), key);
        proof {
            lemma_map_of_ascending(self@);
            match r {
                Ok(i) => {
                    assert(keys_of(self@)[i as int] == self@[i as int].0);
                    assert(keys_of(self@).to_set().contains(*key));
                    assert(map_of(self@)[self@[i as int].0] == self@[i as int].1);
                },
                Err(i) => {
                    assert forall|j: int| 0 <= j < self@.len() implies #[trigger] self@[j].0
                        != *key by {
                        if j < i {
                            lemma_lt_facts(self@[j].0, *key);
                        } else {
                            lemma_lt_facts(*key, self@[j].0);
                        }
                    }
                    lemma_map_of_absent(self@, *key);
                },
            }
        }
        r
    }

    pub fn contains_key(&self, key: &K) -> (r: bool)
        requires
            total_order::<K>(),
            self.wf(),
        ensures
            r == self.as_map().contains_key(*key),
    {
        self.search(key).is_ok()
    }

    pub fn get(&self, key: &K) -> (r: Option<&V>)
        requires
            total_order::<K>(),
            self.wf(),
        ensures
            match r {
                Some(v) => self.as_map().contains_key(*key) && *v == self.as_map()[*key],
                None => !self.as_map().contains_key(*key),
            },
    {
        match self.search(key) {
            Ok(idx) => Some(&self.values[idx]),
            Err(_) => None,
        }
    }

    /// A mutable reference to the value of `key`; the map keeps its keys.
    pub fn get_mut(&mut self, key: &K) -> (r: Option<&mut V>)
        requires
            total_order::<K>(),
            old(self).wf(),
        ensures
            match r {
                Some(v) => old(self).as_map().contains_key(*key) && *v == old(self).as_map()[*key]
                    && final(self).wf() && final(self).as_map() == old(self).as_map().insert(
                    *key,
                    *final(v),
                ),
                None => !old(self).as_map().contains_key(*key) && final(self)@ == old(self)@
                    && final(self).wf(),
            },
    {
        match self.search(key) {
            Ok(idx) => {
                let v = &mut self.values[idx];
                proof {
                    lemma_map_of_update(old(self)@, idx as int, *final(v));
                    assert(zip_entries(old(self).keys@, old(self).values@.update(idx as int, *final(v)))
                        =~= old(self)@.update(idx as int, (old(self)@[idx as int].0, *final(v))));
                }
                Some(v)
            },
            Err(_) => None,
        }
    }

    /// Takes the entry of `key` out of the map and returns its value, if any.
    /// While the entry is removed the map holds no entries, so that a
    /// comparison that unwinds leaves it empty rather than with keys and
    /// values of different lengths.
    pub fn remove(&mut self, key: &K) -> (r: Option<V>)
        requires
            total_order::<K>(),
            old(self).wf(),
        ensures
            final(self).wf(),
            final(self).as_map() == old(self).as_map().remove(*key),
            r == (if old(self).as_map().contains_key(*key) {
                Some(old(self).as_map()[*key])
            } else {
                None::<V>
            }),
    {
        let found = self.search(key);
        let mut keys: Vec<K> = Vec::new();
        let mut values: Vec<V> = Vec::new();
        core::mem::swap(&mut keys, &mut self.keys);
        core::mem::swap(&mut values, &mut self.values);
        let r = match found {
            Ok(idx) => {
                proof {
                    lemma_map_of_remove(old(self)@, idx as int);
                }
                keys.remove(idx);
                let v = values.remove(idx);
                Some(v)
            },
            Err(_) => None,
        };
        self.keys = keys;
        self.values = values;
        proof {
            if found is Ok {
                assert(self@ =~= old(self)@.remove(found->Ok_0 as int));
            } else {
                assert(self@ =~= old(self)@);
                assert(self.as_map() =~= old(self).as_map().remove(*key));
            }
        }
        r
    }

    /// Maps `key` to `value` and returns the value it replaced, if any. A key
    /// greater than every present one is appended without a search. While the
    /// entry is written the map holds no entries, so that a comparison that
    /// unwinds leaves it empty rather than with keys and values of different
    /// lengths.
    pub fn insert(&mut self, key: K, value: V) -> (r: Option<V>)
        requires
            total_order::<K>(),
            old(self).wf(),
        ensures
            final(self).wf(),
            final(self).as_map() == old(self).as_map().insert(key, value),
            r == (if old(self).as_map().contains_key(key) {
                Some(old(self).as_map()[key])
            } else {
                None::<V>
            }),
    {
        let ghost s = old(self)@;
        proof {
            self.lemma_keys_view();
            lemma_map_of_ascending(s);
        }
        let mut keys: Vec<K> = Vec::new();
        let mut values: Vec<V> = Vec::new();
        core::mem::swap(&mut keys, &mut self.keys);
        core::mem::swap(&mut values, &mut self.values);
        assert(keys@ == keys_of(s));
        let n = keys.len();
        // Where the key goes: `Ok` for the position of an equal key, `Err` for
        // the position of a new one.
        let pos: Result<usize, usize> = if n == 0 {
            Err(0)
        } else {
            match key.cmp(&keys[n - 1]) {
                core::cmp::Ordering::Greater => {
                    proof {
                        lemma_lt_facts(keys@[n - 1], key);
                        assert forall|j: int| 0 <= j < n implies lt(#[trigger] keys@[j], key) by {
                            if j < n - 1 {
                                lemma_lt_trans(keys@[j], keys@[n - 1], key);
                            }
                        }
                    }
                    Err(n)
                },
                core::cmp::Ordering::Equal => Ok(n - 1),
                core::cmp::Ordering::Less => binary_search(keys.as_slice(), &key),
            }
        };
        let r = match pos {
            Ok(idx) => {
                let mut value = value;
                proof {
                    lemma_map_of_update(s, idx as int, value);
                    assert(s[idx as int].0 == key);
                    assert(keys_of(s)[idx as int] == key);
                    assert(keys_of(s).to_set().contains(key));
                }
                core::mem::swap(&mut values[idx], &mut value);
                proof {
                    assert(zip_entries(keys@, values@) =~= s.update(idx as int, (s[idx as int].0, values@[idx as int])));
                }
                Some(value)
            },
            Err(idx) => {
                proof {
                    assert forall|j: int| 0 <= j < s.len() implies #[trigger] s[j].0 != key by {
                        assert(keys_of(s)[j] == s[j].0);
                        if j < idx {
                            lemma_lt_facts(keys@[j], key);
                        } else {
                            lemma_lt_facts(key, keys@[j]);
                        }
                    }
                    lemma_map_of_absent(s, key);
                    lemma_ascending_insert(keys@, idx as int, key);
                    assert(keys_of(s.insert(idx as int, (key, value))) =~= keys@.insert(idx as int, key));
                    lemma_map_of_insert(s, idx as int, (key, value));
                }
                if idx == n {
                    keys.push(key);
                    values.push(value);
                } else {
                    keys.insert(idx, key);
                    values.insert(idx, value);
                }
                proof {
                    assert(zip_entries(keys@, values@) =~= s.insert(idx as int, (key, value)));
                }
                None
            },
        };
        self.keys = keys;
        self.values = values;
        r
    }
}

/// A map rebuilt by `from_vec` from the entries of a map equals it, whatever
/// order the entries came in.
pub proof fn lemma_from_vec_round_trip<K: Ord, V>(m: OrderedVecMap<K, V>, r: OrderedVecMap<K, V>)
    requires
        total_order::<K>(),
        m.wf(),
        r.wf(),
        r.as_map() == map_of(m@),
    ensures
        r@ == m@,
{
    lemma_entries_unique(r@, m@);
}

impl<K, V> Default for OrderedVecMap<K, V> {
    fn default() -> (r: Self)
        ensures
            r.aligned(),
            r@ == Seq::<(K, V)>::empty(),
    {
        OrderedVecMap::new()
    }
}

} // verus!
