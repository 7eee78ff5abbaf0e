//! A set kept as a strictly ascending vector.
use vstd::prelude::*;
use vstd::seq_lib::seq_to_set_is_finite;
use vstd::set_lib::{lemma_set_difference_len, lemma_set_intersect_union_lens};

use crate::kernel::{compact, grow, raw_difference_copied, raw_intersection_copied, raw_union_copied};
use crate::order::{
    binary_search, lemma_ascending_insert, lemma_ascending_no_duplicates, lemma_ascending_remove,
    lemma_ascending_unique, lemma_lt_facts, lt, strictly_ascending, total_order,
};
use crate::sorting::sort_dedup;

verus! {

/// A set of `T` held as one vector in strictly ascending order.
#[derive(Clone, PartialEq, Eq, Hash, Debug)]
pub struct VecSet<T>(Vec<T>);

impl<T> View for VecSet<T> {
    type V = Seq<T>;

    closed spec fn view(&self) -> Seq<T> {
        self.0@
    }
}

impl<T> VecSet<T> {
    /// The set holds no element twice and keeps them in ascending order.
    pub open spec fn wf(&self) -> bool
        where T: Ord,
    {
        strictly_ascending(self@)
    }

    pub fn new() -> (r: Self)
        ensures
            r@ == Seq::<T>::empty(),
    {
        VecSet(Vec::new())
    }

    pub fn from_single(val: T) -> (r: Self)
        ensures
            r@ == seq![val],
    {
        let mut v = Vec::new();
        v.push(val);
        VecSet(v)
    }

    pub fn with_capacity(cap: usize) -> (r: Self)
        ensures
            r@ == Seq::<T>::empty(),
    {
        VecSet(Vec::with_capacity(cap))
    }

    pub fn len(&self) -> (r: usize)
        ensures
            r == self@.len(),
    {
        self.0.len()
    }

    pub fn is_empty(&self) -> (r: bool)
        ensures
            r == (self@.len() == 0),
    {
        self.0.len() == 0
    }

    pub fn as_slice(&self) -> (r: &[T])
        ensures
            r@ == self@,
    {
        self.0.as_slice()
    }
}

impl<T: Ord> VecSet<T> {
    /// Builds the set of the items of `v`, in any order and with repeats.
    pub fn from_vec(v: Vec<T>) -> (r: Self)
        requires
            total_order::<T>(),
        ensures
            r.wf(),
            r@.to_set() == v@.to_set(),
    {
        VecSet(sort_dedup(v))
    }

    fn search(&self, val: &T) -> (r: Result<usize, usize>)
        requires
            total_order::<T>(),
            self.wf(),
        ensures
            match r {
                Ok(i) => i < self@.len() && self@[i as int] == *val,
                Err(i) => i <= self@.len() && (forall|j: int|
                    0 <= j < i ==> lt(#[trigger] self@[j], *val)) && (forall|j: int|
                    i <= j < self@.len() ==> lt(*val, #[trigger] self@[j])),
            },
    {
        binary_search(self.0.as_slice(), val)
    }

    pub fn contains(&self, val: &T) -> (r: bool)
        requires
            total_order::<T>(),
            self.wf(),
        ensures
            r == self@.contains(*val),
    {
        match self.search(val) {
            Ok(_) => true,
            Err(i) => {
                proof {
                    assert forall|j: int| 0 <= j < self@.len() implies self@[j] != *val by {
                        if j < i {
                            lemma_lt_facts(self@[j], *val);
                        } else {
                            lemma_lt_facts(*val, self@[j]);
                        }
                    }
                }
                false
            },
        }
    }

    /// Adds `val`; when the set already held it, the held copy is replaced
    /// and returned.
    pub fn insert(&mut self, val: T) -> (r: Option<T>)
        requires
            total_order::<T>(),
            old(self).wf(),
        ensures
            final(self).wf(),
            final(self)@.to_set() == old(self)@.to_set().insert(val),
            r == (if old(self)@.contains(val) {
                Some(val)
            } else {
                None::<T>
            }),
    {
        match self.search(&val) {
            Ok(idx) => {
                let mut val = val;
                core::mem::swap(&mut self.0[idx], &mut val);
                proof {
                    assert(final(self)@ =~= old(self)@);
                }
                Some(val)
            },
            Err(idx) => {
                proof {
                    assert forall|j: int| 0 <= j < old(self)@.len() implies old(self)@[j] != val by {
                        if j < idx {
                            lemma_lt_facts(old(self)@[j], val);
                        } else {
                            lemma_lt_facts(val, old(self)@[j]);
                        }
                    }
                }
                self.0.insert(idx, val);
                proof {
                    let s = self@;
                    lemma_ascending_insert(old(self)@, idx as int, val);
                    let o = old(self)@;
                    assert forall|y: T| s.to_set().contains(y) implies o.to_set().insert(
                        val,
                    ).contains(y) by {
                        let j = choose|j: int| 0 <= j < s.len() && s[j] == y;
                        if j < idx {
                            assert(o[j] == y);
                        } else if j > idx {
                            assert(o[j - 1] == y);
                        }
                    }
                    assert forall|y: T| o.to_set().insert(val).contains(y) implies s.to_set().contains(
                        y,
                    ) by {
                        if y == val {
                            assert(s[idx as int] == y);
                        } else {
                            let j = choose|j: int| 0 <= j < o.len() && o[j] == y;
                            if j < idx {
                                assert(s[j] == y);
                            } else {
                                assert(s[j + 1] == y);
                            }
                        }
                    }
                    assert(s.to_set() =~= o.to_set().insert(val));
                }
                None
            },
        }
    }

    /// Takes `val` out of the set and returns it, if the set held it.
    pub fn remove(&mut self, val: &T) -> (r: Option<T>)
        requires
            total_order::<T>(),
            old(self).wf(),
        ensures
            final(self).wf(),
            final(self)@.to_set() == old(self)@.to_set().remove(*val),
            r == (if old(self)@.contains(*val) {
                Some(*val)
            } else {
                None::<T>
            }),
    {
        match self.search(val) {
            Ok(idx) => {
                let x = self.0.remove(idx);
                proof {
                    let s = self@;
                    let o = old(self)@;
                    lemma_ascending_remove(o, idx as int);
                    assert forall|j: int| 0 <= j < s.len() implies s[j] != *val by {
                        if j < idx {
                            lemma_lt_facts(o[j], o[idx as int]);
                        } else {
                            lemma_lt_facts(o[idx as int], o[j + 1]);
                        }
                    }
                    assert forall|y: T| o.to_set().contains(y) && y != *val implies s.to_set().contains(y) by {
                        let j = choose|j: int| 0 <= j < o.len() && o[j] == y;
                        if j < idx {
                            assert(s[j] == y);
                        } else {
                            assert(s[j - 1] == y);
                        }
                    }
                    assert(s.to_set() =~= o.to_set().remove(*val));
                }
                Some(x)
            },
            Err(i) => {
                proof {
                    assert forall|j: int| 0 <= j < self@.len() implies self@[j] != *val by {
                        if j < i {
                            lemma_lt_facts(self@[j], *val);
                        } else {
                            lemma_lt_facts(*val, self@[j]);
                        }
                    }
                    assert(self@.to_set() =~= old(self)@.to_set().remove(*val));
                }
                None
            },
        }
    }
}

impl<T: Ord + Copy> VecSet<T> {
    /// Replaces the set by its union with `other`. The result is first written
    /// past the current items, in the same buffer, then moved to its front; the
    /// buffer then holds up to twice the set's length plus `other`'s.
    pub fn union_copied_inplace(&mut self, other: &Self)
        requires
            total_order::<T>(),
            old(self).wf(),
            other.wf(),
            2 * old(self)@.len() + other@.len() <= usize::MAX,
        ensures
            final(self).wf(),
            final(self)@.to_set() == old(self)@.to_set() + other@.to_set(),
    {
        let m = self.0.len();
        let n = other.0.len();
        if m == 0 {
            let mut t: usize = 0;
            while t < n
                invariant
                    t <= n,
                    n == other@.len(),
                    self@ == other@.take(t as int),
                decreases n - t,
            {
                self.0.push(other.0[t]);
                assert(self@ =~= other@.take(t + 1));
                t += 1;
            }
            assert(self@ =~= other@);
            assert(old(self)@.to_set() =~= Set::empty());
            assert(self@.to_set() =~= old(self)@.to_set() + other@.to_set());
            return;
        }
        let filler = self.0[0];
        grow(&mut self.0, m + n, filler);
        let cnt;
        let ghost front;
        let ghost back;
        {
            let (a, out) = self.0.as_mut_slice().split_at_mut(m);
            cnt = raw_union_copied(a, other.0.as_slice(), out);
            proof {
                front = a@;
                back = out@;
            }
        }
        let ghost written = self@;
        assert(written =~= front + back);
        assert(written.take(m as int) =~= old(self)@);
        assert(written.subrange(m as int, written.len() as int) =~= back);
        compact(&mut self.0, m, cnt);
        assert(self@ =~= written.subrange(m as int, written.len() as int).take(cnt as int));
    }

    /// The union of the two sets, in a new set.
    pub fn union_copied(&self, other: &Self) -> (r: Self)
        requires
            total_order::<T>(),
            self.wf(),
            other.wf(),
            self@.len() + other@.len() <= usize::MAX,
        ensures
            r.wf(),
            r@.to_set() == self@.to_set() + other@.to_set(),
    {
        let m = self.0.len();
        let n = other.0.len();
        if m + n == 0 {
            assert(self@.to_set() =~= Set::empty());
            assert(other@.to_set() =~= Set::empty());
            let r = VecSet::new();
            assert(r@.to_set() =~= Set::empty());
            return r;
        }
        let filler = if m > 0 {
            self.0[0]
        } else {
            other.0[0]
        };
        let mut ans: Vec<T> = Vec::with_capacity(m + n);
        grow(&mut ans, m + n, filler);
        let cnt = raw_union_copied(self.0.as_slice(), other.0.as_slice(), ans.as_mut_slice());
        ans.truncate(cnt);
        VecSet(ans)
    }

    /// The items that both sets hold, in a new set.
    pub fn intersection_copied(&self, other: &Self) -> (r: Self)
        requires
            total_order::<T>(),
            self.wf(),
            other.wf(),
        ensures
            r.wf(),
            r@.to_set() == self@.to_set().intersect(other@.to_set()),
    {
        let m = self.0.len();
        let n = other.0.len();
        let cap = if m < n {
            m
        } else {
            n
        };
        if cap == 0 {
            assert(self@.to_set().intersect(other@.to_set()) =~= Set::empty());
            let r = VecSet::new();
            assert(r@.to_set() =~= Set::empty());
            return r;
        }
        let filler = self.0[0];
        let mut ans: Vec<T> = Vec::with_capacity(cap);
        grow(&mut ans, cap, filler);
        let cnt = raw_intersection_copied(self.0.as_slice(), other.0.as_slice(), ans.as_mut_slice());
        ans.truncate(cnt);
        VecSet(ans)
    }

    /// Removes from the set every item that `other` holds. The result is first
    /// written past the current items, in the same buffer, then moved to its
    /// front; the buffer then holds up to twice the set's length.
    pub fn difference_copied_inplace(&mut self, other: &Self)
        requires
            total_order::<T>(),
            old(self).wf(),
            other.wf(),
            2 * old(self)@.len() <= usize::MAX,
        ensures
            final(self).wf(),
            final(self)@.to_set() == old(self)@.to_set().difference(other@.to_set()),
    {
        let m = self.0.len();
        if m == 0 {
            assert(self@.to_set() =~= old(self)@.to_set().difference(other@.to_set()));
            return;
        }
        let filler = self.0[0];
        grow(&mut self.0, m, filler);
        let cnt;
        let ghost front;
        let ghost back;
        {
            let (a, out) = self.0.as_mut_slice().split_at_mut(m);
            cnt = raw_difference_copied(a, other.0.as_slice(), out);
            proof {
                front = a@;
                back = out@;
            }
        }
        let ghost written = self@;
        assert(written =~= front + back);
        assert(written.take(m as int) =~= old(self)@);
        assert(written.subrange(m as int, written.len() as int) =~= back);
        compact(&mut self.0, m, cnt);
        assert(self@ =~= written.subrange(m as int, written.len() as int).take(cnt as int));
    }
}

/// The items of a `VecSet` that are still to be visited, in ascending order.
pub struct Iter<'a, T> {
    items: &'a [T],
    pos: usize,
}

impl<'a, T> View for Iter<'a, T> {
    type V = Seq<T>;

    closed spec fn view(&self) -> Seq<T> {
        self.items@.subrange(self.pos as int, self.items@.len() as int)
    }
}

impl<'a, T> Iter<'a, T> {
    pub closed spec fn wf(&self) -> bool {
        self.pos <= self.items@.len()
    }

    /// The number of items still to be visited.
    pub fn len(&self) -> (r: usize)
        requires
            self.wf(),
        ensures
            r == self@.len(),
    {
        self.items.len() - self.pos
    }

    /// Takes the smallest item that is left.
    pub fn next(&mut self) -> (r: Option<&'a T>)
        requires
            old(self).wf(),
        ensures
            final(self).wf(),
            match r {
                None => old(self)@.len() == 0 && final(self)@ == old(self)@,
                Some(x) => old(self)@.len() > 0 && *x == old(self)@[0] && final(self)@ == old(
                    self,
                )@.drop_first(),
            },
    {
        if self.pos == self.items.len() {
            return None;
        }
        let i = self.pos;
        self.pos = i + 1;
        assert(self@ =~= old(self)@.drop_first());
        Some(&self.items[i])
    }
}

/// The items of a `VecSet` that are still to be handed out, in ascending
/// order, owned.
pub struct IntoIter<T> {
    rev: Vec<T>,
}

impl<T> View for IntoIter<T> {
    type V = Seq<T>;

    closed spec fn view(&self) -> Seq<T> {
        self.rev@.reverse()
    }
}

impl<T> IntoIter<T> {
    /// The number of items still to be handed out.
    pub fn len(&self) -> (r: usize)
        ensures
            r == self@.len(),
    {
        self.rev.len()
    }

    /// Hands out the smallest item that is left.
    pub fn next(&mut self) -> (r: Option<T>)
        ensures
            match r {
                None => old(self)@.len() == 0 && final(self)@ == old(self)@,
                Some(x) => old(self)@.len() > 0 && x == old(self)@[0] && final(self)@ == old(
                    self,
                )@.drop_first(),
            },
    {
        let r = self.rev.pop();
        proof {
            if r is None {
                assert(self@ =~= old(self)@);
            } else {
                assert(self@ =~= old(self)@.drop_first());
            }
        }
        r
    }
}

/// The items of `v` in reverse order.
pub(crate) fn reversed<T>(mut v: Vec<T>) -> (r: Vec<T>)
    ensures
        r@ == v@.reverse(),
{
    let ghost s = v@;
    let mut r: Vec<T> = Vec::with_capacity(v.len());
    while v.len() > 0
        invariant
            v@ == s.take(v@.len() as int),
            v@.len() <= s.len(),
            r@ == s.subrange(v@.len() as int, s.len() as int).reverse(),
        decreases v@.len(),
    {
        let ghost before = r@;
        let x = v.pop().unwrap();
        r.push(x);
        assert(v@ =~= s.take(v@.len() as int));
        assert(r@ =~= s.subrange(v@.len() as int, s.len() as int).reverse());
    }
    assert(r@ =~= s.reverse());
    r
}

impl<T> VecSet<T> {
    /// Visits the items in ascending order.
    pub fn iter(&self) -> (r: Iter<'_, T>)
        ensures
            r.wf(),
            r@ == self@,
    {
        let r = Iter { items: self.0.as_slice(), pos: 0 };
        assert(r@ =~= self@);
        r
    }

    /// Hands out the items in ascending order.
    pub fn into_iter(self) -> (r: IntoIter<T>)
        ensures
            r@ == self@,
    {
        let r = IntoIter { rev: reversed(self.0) };
        assert(r@ =~= self@);
        r
    }
}

impl<T> Default for VecSet<T> {
    fn default() -> (r: Self)
        ensures
            r@ == Seq::<T>::empty(),
    {
        VecSet::new()
    }
}

/// The items of a `VecSet` that are still to be visited, in ascending order,
/// handed out as mutable references. A caller that changes an item so that
/// the order breaks leaves a set that is no longer well formed. The field is
/// public so that contracts can speak of the borrowed items.
pub struct IterMut<'a, T> {
    pub rest: Option<&'a mut [T]>,
}

impl<'a, T> IterMut<'a, T> {
    /// Takes the first item that is left.
    pub fn next(&mut self) -> (r: Option<&'a mut T>)
        ensures
            match old(self).rest {
                None => r is None && final(self).rest is None,
                Some(s) => if s@.len() == 0 {
                    r is None && final(self).rest is None && final(s)@ == s@
                } else {
                    &&& r is Some
                    &&& final(self).rest is Some
                    &&& *r.unwrap() == s@[0]
                    &&& final(self).rest.unwrap()@ == s@.drop_first()
                    &&& final(s)@ == seq![*final(r.unwrap())] + final(final(self).rest.unwrap())@
                },
            },
    {
        match self.rest.take() {
            None => None,
            Some(s) => {
                if s.len() == 0 {
                    None
                } else {
                    let (head, tail) = s.split_at_mut(1);
                    let ghost head_after = final(head)@;
                    self.rest = Some(tail);
                    let r = head.first_mut();
                    proof {
                        assert(head_after =~= seq![*final(r.unwrap())]);
                    }
                    r
                }
            },
        }
    }
}

impl<T> VecSet<T> {
    /// Visits the items in ascending order through mutable references.
    pub fn iter_mut(&mut self) -> (r: IterMut<'_, T>)
        ensures
            r.rest is Some,
            r.rest.unwrap()@ == old(self)@,
            final(self)@ == final(r.rest.unwrap())@,
    {
        IterMut { rest: Some(self.0.as_mut_slice()) }
    }
}

proof fn lemma_len_is_set_len<T: Ord>(s: VecSet<T>)
    requires
        total_order::<T>(),
        s.wf(),
    ensures
        s@.len() == s@.to_set().len(),
        s@.to_set().finite(),
{
    lemma_ascending_no_duplicates(s@);
    s@.unique_seq_to_set();
    seq_to_set_is_finite(s@);
}

/// A set rebuilt by `from_vec` from the items of a set equals it, whatever
/// order the items came in.
pub proof fn lemma_from_vec_round_trip<T: Ord>(s: VecSet<T>, r: VecSet<T>)
    requires
        total_order::<T>(),
        s.wf(),
        r.wf(),
        r@.to_set() == s@.to_set(),
    ensures
        r@ == s@,
{
    lemma_ascending_unique(r@, s@);
}

/// Union is commutative: `a ∪ b` and `b ∪ a` hold the same items in the
/// same order.
pub proof fn lemma_union_commutative<T: Ord>(
    a: VecSet<T>,
    b: VecSet<T>,
    ab: VecSet<T>,
    ba: VecSet<T>,
)
    requires
        total_order::<T>(),
        a.wf(),
        b.wf(),
        ab.wf(),
        ba.wf(),
        ab@.to_set() == a@.to_set() + b@.to_set(),
        ba@.to_set() == b@.to_set() + a@.to_set(),
    ensures
        ab@ == ba@,
{
    assert(ab@.to_set() =~= ba@.to_set());
    lemma_ascending_unique(ab@, ba@);
}

/// `|a ∪ b| = |a| + |b| - |a ∩ b|`.
pub proof fn lemma_union_len<T: Ord>(a: VecSet<T>, b: VecSet<T>, u: VecSet<T>, i: VecSet<T>)
    requires
        total_order::<T>(),
        a.wf(),
        b.wf(),
        u.wf(),
        i.wf(),
        u@.to_set() == a@.to_set() + b@.to_set(),
        i@.to_set() == a@.to_set().intersect(b@.to_set()),
    ensures
        u@.len() == a@.len() + b@.len() - i@.len(),
{
    lemma_len_is_set_len(a);
    lemma_len_is_set_len(b);
    lemma_len_is_set_len(u);
    lemma_len_is_set_len(i);
    lemma_set_intersect_union_lens(a@.to_set(), b@.to_set());
}

/// `a ∖ b` and `a ∩ b` split `a` in two: they share no item, together they
/// hold `a`, and `|a ∖ b| + |a ∩ b| = |a|`.
pub proof fn lemma_difference_intersection_partition<T: Ord>(
    a: VecSet<T>,
    b: VecSet<T>,
    d: VecSet<T>,
    i: VecSet<T>,
)
    requires
        total_order::<T>(),
        a.wf(),
        b.wf(),
        d.wf(),
        i.wf(),
        d@.to_set() == a@.to_set().difference(b@.to_set()),
        i@.to_set() == a@.to_set().intersect(b@.to_set()),
    ensures
        d@.to_set().disjoint(i@.to_set()),
        d@.to_set() + i@.to_set() == a@.to_set(),
        d@.len() + i@.len() == a@.len(),
{
    lemma_len_is_set_len(a);
    lemma_len_is_set_len(b);
    lemma_len_is_set_len(d);
    lemma_len_is_set_len(i);
    lemma_set_difference_len(a@.to_set(), b@.to_set());
    assert(d@.to_set() + i@.to_set() =~= a@.to_set());
}

/// `a ∪ a = a`.
pub proof fn lemma_union_idempotent<T: Ord>(a: VecSet<T>, u: VecSet<T>)
    requires
        total_order::<T>(),
        a.wf(),
        u.wf(),
        u@.to_set() == a@.to_set() + a@.to_set(),
    ensures
        u@ == a@,
{
    assert(u@.to_set() =~= a@.to_set());
    lemma_ascending_unique(u@, a@);
}

/// `a ∩ a = a`.
pub proof fn lemma_intersection_idempotent<T: Ord>(a: VecSet<T>, i: VecSet<T>)
    requires
        total_order::<T>(),
        a.wf(),
        i.wf(),
        i@.to_set() == a@.to_set().intersect(a@.to_set()),
    ensures
        i@ == a@,
{
    assert(i@.to_set() =~= a@.to_set());
    lemma_ascending_unique(i@, a@);
}

/// `a ∖ a` is empty.
pub proof fn lemma_difference_self_empty<T: Ord>(a: VecSet<T>, d: VecSet<T>)
    requires
        total_order::<T>(),
        a.wf(),
        d.wf(),
        d@.to_set() == a@.to_set().difference(a@.to_set()),
    ensures
        d@.len() == 0,
{
    if d@.len() > 0 {
        assert(d@.to_set().contains(d@[0]));
    }
}

} // verus!
