//! The merge kernel: one forward sweep over two strictly ascending
//! sequences that writes the union, the intersection or the difference into
//! a destination slice and returns how many items it wrote.
use core::cmp::Ordering;
use vstd::prelude::*;

use crate::order::{
    lemma_ascending_push, lemma_lt_facts, lemma_lt_trans, lemma_take_succ_to_set, lt,
    strictly_ascending, total_order,
};

verus! {

/// Appends `extra` copies of `filler` to `v`.
pub fn grow<T: Copy>(v: &mut Vec<T>, extra: usize, filler: T)
    requires
        old(v)@.len() + extra <= usize::MAX,
    ensures
        final(v)@.len() == old(v)@.len() + extra,
        final(v)@.take(old(v)@.len() as int) == old(v)@,
{
    let mut t: usize = 0;
    while t < extra
        invariant
            t <= extra,
            v@.len() == old(v)@.len() + t,
            v@.take(old(v)@.len() as int) == old(v)@,
            old(v)@.len() + extra <= usize::MAX,
        decreases extra - t,
    {
        let ghost before = v@;
        v.push(filler);
        assert(v@.take(old(v)@.len() as int) =~= before.take(old(v)@.len() as int));
        t += 1;
    }
}

/// Moves the `cnt` items that start at `from` to the front of `v` and drops
/// everything after them.
pub fn compact<T: Copy>(v: &mut Vec<T>, from: usize, cnt: usize)
    requires
        from > 0,
        from + cnt <= old(v)@.len(),
    ensures
        final(v)@ == old(v)@.subrange(from as int, from + cnt),
{
    let ghost src = old(v)@;
    let mut t: usize = 0;
    let len = v.len();
    while t < cnt
        invariant
            len == v@.len(),
            from > 0,
            from + cnt <= src.len(),
            t <= cnt,
            v@.len() == src.len(),
            forall|p: int| 0 <= p < t ==> #[trigger] v@[p] == src[from + p],
            forall|p: int| from + t <= p < from + cnt ==> #[trigger] v@[p] == src[p],
        decreases cnt - t,
    {
        let x = v[from + t];
        v[t] = x;
        t += 1;
    }
    v.truncate(cnt);
    assert(v@ =~= src.subrange(from as int, from + cnt));
}


/// Writes the union of `a` and `b` to the front of `out`.
pub fn raw_union_copied<T: Ord + Copy>(a: &[T], b: &[T], out: &mut [T]) -> (cnt: usize)
    requires
        total_order::<T>(),
        strictly_ascending(a@),
        strictly_ascending(b@),
        old(out)@.len() >= a@.len() + b@.len(),
    ensures
        cnt <= a@.len() + b@.len(),
        final(out)@.len() == old(out)@.len(),
        strictly_ascending(final(out)@.take(cnt as int)),
        final(out)@.take(cnt as int).to_set() == a@.to_set() + b@.to_set(),
{
    let m = a.len();
    let n = b.len();
    let mut i: usize = 0;
    let mut j: usize = 0;
    let mut k: usize = 0;
    let len = out.len();
    while i < m || j < n
        invariant
            len == out@.len(),
            total_order::<T>(),
            strictly_ascending(a@),
            strictly_ascending(b@),
            m == a@.len(),
            n == b@.len(),
            out@.len() == old(out)@.len(),
            out@.len() >= m + n,
            i <= m,
            j <= n,
            k <= i + j,
            strictly_ascending(out@.take(k as int)),
            out@.take(k as int).to_set() == a@.take(i as int).to_set() + b@.take(j as int).to_set(),
            k > 0 && i < m ==> lt(out@[k - 1], a@[i as int]),
            k > 0 && j < n ==> lt(out@[k - 1], b@[j as int]),
        decreases m + n - i - j,
    {
        let ghost prev = out@.take(k as int);
        let y: T;
        if i < m && j < n {
            match a[i].cmp(&b[j]) {
                Ordering::Less => {
                    y = a[i];
                    proof {
                        lemma_take_succ_to_set(a@, i as int);
                        if i + 1 < m {
                            assert(lt(a@[i as int], a@[i + 1]));
                        }
                    }
                    i += 1;
                },
                Ordering::Greater => {
                    y = b[j];
                    proof {
                        lemma_lt_facts(a@[i as int], b@[j as int]);
                        lemma_take_succ_to_set(b@, j as int);
                        if j + 1 < n {
                            assert(lt(b@[j as int], b@[j + 1]));
                        }
                    }
                    j += 1;
                },
                Ordering::Equal => {
                    y = a[i];
                    proof {
                        lemma_take_succ_to_set(a@, i as int);
                        lemma_take_succ_to_set(b@, j as int);
                        if i + 1 < m {
                            assert(lt(a@[i as int], a@[i + 1]));
                        }
                        if j + 1 < n {
                            assert(lt(b@[j as int], b@[j + 1]));
                        }
                    }
                    i += 1;
                    j += 1;
                },
            }
        } else if i < m {
            y = a[i];
            proof {
                lemma_take_succ_to_set(a@, i as int);
                if i + 1 < m {
                    assert(lt(a@[i as int], a@[i + 1]));
                }
            }
            i += 1;
        } else {
            y = b[j];
            proof {
                lemma_take_succ_to_set(b@, j as int);
                if j + 1 < n {
                    assert(lt(b@[j as int], b@[j + 1]));
                }
            }
            j += 1;
        }
        proof {
            if k > 0 {
                assert(prev.last() == out@[k - 1]);
            }
            lemma_ascending_push(prev, y);
            prev.lemma_push_to_set_commute(y);
        }
        out[k] = y;
        assert(out@.take(k + 1) =~= prev.push(y));
        k += 1;
        assert(out@.take(k as int).to_set() =~= a@.take(i as int).to_set() + b@.take(j as int).to_set());
    }
    assert(a@.take(m as int) =~= a@);
    assert(b@.take(n as int) =~= b@);
    k
}

/// Writes the items that `a` and `b` share to the front of `out`.
pub fn raw_intersection_copied<T: Ord + Copy>(a: &[T], b: &[T], out: &mut [T]) -> (cnt: usize)
    requires
        total_order::<T>(),
        strictly_ascending(a@),
        strictly_ascending(b@),
        old(out)@.len() >= a@.len() || old(out)@.len() >= b@.len(),
    ensures
        cnt <= a@.len(),
        cnt <= b@.len(),
        final(out)@.len() == old(out)@.len(),
        strictly_ascending(final(out)@.take(cnt as int)),
        final(out)@.take(cnt as int).to_set() == a@.to_set().intersect(b@.to_set()),
{
    let m = a.len();
    let n = b.len();
    let mut i: usize = 0;
    let mut j: usize = 0;
    let mut k: usize = 0;
    let len = out.len();
    while i < m && j < n
        invariant
            total_order::<T>(),
            strictly_ascending(a@),
            strictly_ascending(b@),
            m == a@.len(),
            n == b@.len(),
            len == out@.len(),
            out@.len() == old(out)@.len(),
            out@.len() >= m || out@.len() >= n,
            i <= m,
            j <= n,
            k <= i,
            k <= j,
            strictly_ascending(out@.take(k as int)),
            out@.take(k as int).to_set() == a@.take(i as int).to_set().intersect(
                b@.take(j as int).to_set(),
            ),
            k > 0 && i < m ==> lt(out@[k - 1], a@[i as int]),
            forall|q: int| 0 <= q < j && i < m ==> lt(#[trigger] b@[q], a@[i as int]),
            forall|p: int| 0 <= p < i && j < n ==> lt(#[trigger] a@[p], b@[j as int]),
        decreases m + n - i - j,
    {
        let ghost prev = out@.take(k as int);
        match a[i].cmp(&b[j]) {
            Ordering::Less => {
                proof {
                    lemma_take_succ_to_set(a@, i as int);
                    assert forall|q: int| 0 <= q < j implies b@[q] != a@[i as int] by {
                        lemma_lt_facts(b@[q], a@[i as int]);
                    }
                    if i + 1 < m {
                        assert(lt(a@[i as int], a@[i + 1]));
                        assert forall|q: int| 0 <= q < j implies lt(#[trigger] b@[q], a@[i + 1]) by {
                            lemma_lt_trans(b@[q], a@[i as int], a@[i + 1]);
                        }
                        if k > 0 {
                            lemma_lt_trans(out@[k - 1], a@[i as int], a@[i + 1]);
                        }
                    }
                }
                i += 1;
                assert(out@.take(k as int).to_set() =~= a@.take(i as int).to_set().intersect(
                    b@.take(j as int).to_set(),
                ));
            },
            Ordering::Greater => {
                proof {
                    lemma_lt_facts(a@[i as int], b@[j as int]);
                    lemma_take_succ_to_set(b@, j as int);
                    assert forall|p: int| 0 <= p < i implies a@[p] != b@[j as int] by {
                        lemma_lt_facts(a@[p], b@[j as int]);
                    }
                    if j + 1 < n {
                        assert(lt(b@[j as int], b@[j + 1]));
                        assert forall|p: int| 0 <= p < i implies lt(#[trigger] a@[p], b@[j + 1]) by {
                            lemma_lt_trans(a@[p], b@[j as int], b@[j + 1]);
                        }
                    }
                }
                j += 1;
                assert(out@.take(k as int).to_set() =~= a@.take(i as int).to_set().intersect(
                    b@.take(j as int).to_set(),
                ));
            },
            Ordering::Equal => {
                let y = a[i];
                proof {
                    lemma_take_succ_to_set(a@, i as int);
                    lemma_take_succ_to_set(b@, j as int);
                    if k > 0 {
                        assert(prev.last() == out@[k - 1]);
                    }
                    lemma_ascending_push(prev, y);
                    prev.lemma_push_to_set_commute(y);
                    if i + 1 < m {
                        assert(lt(a@[i as int], a@[i + 1]));
                        assert forall|q: int| 0 <= q < j + 1 implies lt(#[trigger] b@[q], a@[i + 1]) by {
                            if q < j {
                                lemma_lt_trans(b@[q], a@[i as int], a@[i + 1]);
                            }
                        }
                    }
                    if j + 1 < n {
                        assert(lt(b@[j as int], b@[j + 1]));
                        assert forall|p: int| 0 <= p < i + 1 implies lt(#[trigger] a@[p], b@[j + 1]) by {
                            if p < i {
                                lemma_lt_trans(a@[p], b@[j as int], b@[j + 1]);
                            }
                        }
                    }
                }
                out[k] = y;
                assert(out@.take(k + 1) =~= prev.push(y));
                k += 1;
                i += 1;
                j += 1;
                assert(out@.take(k as int).to_set() =~= a@.take(i as int).to_set().intersect(
                    b@.take(j as int).to_set(),
                ));
            },
        }
    }
    proof {
        if i == m {
            assert(a@.take(m as int) =~= a@);
            assert forall|x: T| b@.to_set().contains(x) && a@.to_set().contains(x) implies b@.take(
                j as int,
            ).to_set().contains(x) by {
                let q = choose|q: int| 0 <= q < n && b@[q] == x;
                let p = choose|p: int| 0 <= p < m && a@[p] == x;
                if q >= j {
                    if q > j {
                        lemma_lt_trans(a@[p], b@[j as int], b@[q]);
                    }
                    lemma_lt_facts(a@[p], b@[q]);
                }
                assert(b@.take(j as int)[q] == x);
            }
        } else {
            assert(b@.take(n as int) =~= b@);
            assert forall|x: T| a@.to_set().contains(x) && b@.to_set().contains(x) implies a@.take(
                i as int,
            ).to_set().contains(x) by {
                let q = choose|q: int| 0 <= q < n && b@[q] == x;
                let p = choose|p: int| 0 <= p < m && a@[p] == x;
                if p >= i {
                    if p > i {
                        lemma_lt_trans(b@[q], a@[i as int], a@[p]);
                    }
                    lemma_lt_facts(b@[q], a@[p]);
                }
                assert(a@.take(i as int)[p] == x);
            }
        }
        assert(out@.take(k as int).to_set() =~= a@.to_set().intersect(b@.to_set()));
    }
    k
}

/// Writes the items of `a` that `b` does not hold to the front of `out`.
pub fn raw_difference_copied<T: Ord + Copy>(a: &[T], b: &[T], out: &mut [T]) -> (cnt: usize)
    requires
        total_order::<T>(),
        strictly_ascending(a@),
        strictly_ascending(b@),
        old(out)@.len() >= a@.len(),
    ensures
        cnt <= a@.len(),
        final(out)@.len() == old(out)@.len(),
        strictly_ascending(final(out)@.take(cnt as int)),
        final(out)@.take(cnt as int).to_set() == a@.to_set().difference(b@.to_set()),
{
    let m = a.len();
    let n = b.len();
    let mut i: usize = 0;
    let mut j: usize = 0;
    let mut k: usize = 0;
    let len = out.len();
    while i < m
        invariant
            total_order::<T>(),
            strictly_ascending(a@),
            strictly_ascending(b@),
            m == a@.len(),
            n == b@.len(),
            len == out@.len(),
            out@.len() == old(out)@.len(),
            out@.len() >= m,
            i <= m,
            j <= n,
            k <= i,
            strictly_ascending(out@.take(k as int)),
            out@.take(k as int).to_set() == a@.take(i as int).to_set().difference(b@.to_set()),
            k > 0 && i < m ==> lt(out@[k - 1], a@[i as int]),
            forall|q: int| 0 <= q < j && i < m ==> lt(#[trigger] b@[q], a@[i as int]),
        decreases m + n - i - j,
    {
        let ghost prev = out@.take(k as int);
        let keep: bool;
        if j < n {
            match a[i].cmp(&b[j]) {
                Ordering::Less => {
                    keep = true;
                },
                Ordering::Greater => {
                    proof {
                        lemma_lt_facts(a@[i as int], b@[j as int]);
                    }
                    j += 1;
                    continue;
                },
                Ordering::Equal => {
                    keep = false;
                },
            }
        } else {
            keep = true;
        }
        proof {
            lemma_take_succ_to_set(a@, i as int);
            if i + 1 < m {
                assert(lt(a@[i as int], a@[i + 1]));
                assert forall|q: int| 0 <= q < j implies lt(#[trigger] b@[q], a@[i + 1]) by {
                    lemma_lt_trans(b@[q], a@[i as int], a@[i + 1]);
                }
                if k > 0 {
                    lemma_lt_trans(out@[k - 1], a@[i as int], a@[i + 1]);
                }
            }
        }
        if keep {
            let y = a[i];
            proof {
                assert forall|q: int| 0 <= q < n implies b@[q] != y by {
                    if q < j {
                        lemma_lt_facts(b@[q], y);
                    } else {
                        if q > j {
                            lemma_lt_trans(y, b@[j as int], b@[q]);
                        }
                        lemma_lt_facts(y, b@[q]);
                    }
                }
                if k > 0 {
                    assert(prev.last() == out@[k - 1]);
                }
                lemma_ascending_push(prev, y);
                prev.lemma_push_to_set_commute(y);
            }
            out[k] = y;
            assert(out@.take(k + 1) =~= prev.push(y));
            k += 1;
            i += 1;
        } else {
            proof {
                if j + 1 < n {
                    assert(lt(b@[j as int], b@[j + 1]));
                }
            }
            i += 1;
            j += 1;
            proof {
                if i < m {
                    assert forall|q: int| 0 <= q < j implies lt(#[trigger] b@[q], a@[i as int]) by {
                        if q < j - 1 {
                            lemma_lt_trans(b@[q], a@[i - 1], a@[i as int]);
                        }
                    }
                }
            }
        }
        assert(out@.take(k as int).to_set() =~= a@.take(i as int).to_set().difference(
            b@.to_set(),
        ));
    }
    assert(a@.take(m as int) =~= a@);
    k
}

} // verus!
