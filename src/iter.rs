//! Traversal of an `OrderedVecMap` from either end.
use vstd::prelude::*;

use crate::{zip_entries, OrderedVecMap};

verus! {

/// The entries of an `OrderedVecMap` that are still to be visited; taken
/// from the front in ascending key order, or from the back.
pub struct Iter<'a, K, V> {
    keys: &'a [K],
    values: &'a [V],
    front: usize,
    back: usize,
}

impl<'a, K, V> View for Iter<'a, K, V> {
    type V = Seq<(K, V)>;

    closed spec fn view(&self) -> Seq<(K, V)> {
        zip_entries(self.keys@, self.values@).subrange(self.front as int, self.back as int)
    }
}

impl<'a, K, V> Iter<'a, K, V> {
    /// The two ends lie within the entries, front before back.
    pub closed spec fn wf(&self) -> bool {
        &&& self.keys@.len() == self.values@.len()
        &&& self.front <= self.back <= self.keys@.len()
    }

    pub(crate) fn new(keys: &'a [K], values: &'a [V]) -> (r: Self)
        requires
            keys@.len() == values@.len(),
        ensures
            r.wf(),
            r@ == zip_entries(keys@, values@),
    {
        let r = Iter { keys, values, front: 0, back: keys.len() };
        assert(r@ =~= zip_entries(keys@, values@));
        r
    }

    /// The number of entries still to be visited.
    pub fn len(&self) -> (r: usize)
        requires
            self.wf(),
        ensures
            r == self@.len(),
    {
        self.back - self.front
    }

    /// Takes the entry with the smallest key that is left.
    pub fn next(&mut self) -> (r: Option<(&'a K, &'a V)>)
        requires
            old(self).wf(),
        ensures
            final(self).wf(),
            match r {
                None => old(self)@.len() == 0 && final(self)@ == old(self)@,
                Some(e) => old(self)@.len() > 0 && (*e.0, *e.1) == old(self)@[0] && final(self)@
                    == old(self)@.drop_first(),
            },
    {
        if self.front == self.back {
            return None;
        }
        let i = self.front;
        self.front = i + 1;
        assert(self@ =~= old(self)@.drop_first());
        Some((&self.keys[i], &self.values[i]))
    }

    /// Takes the entry with the greatest key that is left.
    pub fn next_back(&mut self) -> (r: Option<(&'a K, &'a V)>)
        requires
            old(self).wf(),
        ensures
            final(self).wf(),
            match r {
                None => old(self)@.len() == 0 && final(self)@ == old(self)@,
                Some(e) => old(self)@.len() > 0 && (*e.0, *e.1) == old(self)@.last() && final(self)@
                    == old(self)@.drop_last(),
            },
    {
        if self.front == self.back {
            return None;
        }
        let i = self.back - 1;
        self.back = i;
        assert(self@ =~= old(self)@.drop_last());
        Some((&self.keys[i], &self.values[i]))
    }
}

} // verus!
