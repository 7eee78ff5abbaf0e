use ordered_vecmap::vecmap::{Entry, VecMap};
use ordered_vecmap::vecset::VecSet;

#[test]
fn vecmap_from_vec() {
    let m: VecMap<u8, u8> = VecMap::from_vec(vec![(4, 1), (2, 3), (5, 7), (2, 9), (4, 6), (7, 8)]);
    assert!([1, 6].contains(m.get(&4).unwrap()));
    assert!([3, 9].contains(m.get(&2).unwrap()));
    assert_eq!(*m.get(&5).unwrap(), 7);
    assert_eq!(*m.get(&7).unwrap(), 8);
}

#[test]
fn merge_max() {
    let mut m1: VecMap<u8, u8> = VecMap::from_vec(vec![(1, 1), (3, 3), (5, 5)]);
    let m2: VecMap<u8, u8> = VecMap::from_vec(vec![(1, 1), (2, 2), (3, 2), (4, 4), (5, 6)]);
    m1.merge_copied_with(&m2, |v1, v2| v1.max(v2));
    assert_eq!(*m1.get(&1).unwrap(), 1);
    assert_eq!(*m1.get(&2).unwrap(), 2);
    assert_eq!(*m1.get(&3).unwrap(), 3);
    assert_eq!(*m1.get(&4).unwrap(), 4);
    assert_eq!(*m1.get(&5).unwrap(), 6);
}

#[test]
fn remove_less_than() {
    let mut m: VecMap<u8, String> = VecMap::from_vec(vec![
        (4, 1.to_string()),
        (2, 3.to_string()),
        (5, 7.to_string()),
        (2, 9.to_string()),
        (4, 6.to_string()),
        (7, 8.to_string()),
    ]);
    m.remove_less_than(&5);
    assert!(m.get(&2).is_none());
    assert!(m.get(&4).is_none());
    assert!(m.get(&5).is_some());
    assert!(m.get(&7).is_some());
}

#[test]
fn apply() {
    let map = VecMap::from_vec(vec![(1, 2), (3, 4), (5, 6)]);

    {
        let keys = VecSet::new();
        let mut ans = Vec::new();
        map.apply(&keys, |&v| ans.push(v));
        assert!(ans.is_empty());
    }
    {
        let keys = VecSet::from_single(3);
        let mut ans = Vec::new();
        map.apply(&keys, |&v| ans.push(v));
        assert_eq!(ans, [4]);
    }
    {
        let keys = VecSet::from_vec(vec![0, 1, 2, 3, 4, 5, 6]);
        let mut ans = Vec::new();
        map.apply(&keys, |&v| ans.push(v));
        assert_eq!(ans, [2, 4, 6]);
    }
}

#[test]
fn vecmap_from_vec_last_wins() {
    let m = VecMap::from_vec(vec![(4, "a"), (2, "b"), (5, "c"), (2, "d")]);
    assert_eq!(m.as_slice(), &[(2, "d"), (4, "a"), (5, "c")]);
}

#[test]
fn vecmap_from_vec_empty_and_single() {
    let m: VecMap<u32, u32> = VecMap::from_vec(Vec::new());
    assert!(m.is_empty());
    let m = VecMap::from_vec(vec![(7u32, 1u32)]);
    assert_eq!(m.as_slice(), &[(7, 1)]);
    let m = VecMap::from_vec(vec![(7u32, 1u32), (7, 2), (7, 3)]);
    assert_eq!(m.as_slice(), &[(7, 3)]);
}

#[test]
fn remove_less_than_keeps_at_least() {
    let mut m = VecMap::from_vec(vec![(2, 'a'), (4, 'b'), (5, 'c'), (7, 'd')]);
    m.remove_less_than(&5);
    assert_eq!(m.as_slice(), &[(5, 'c'), (7, 'd')]);
    m.remove_less_than(&6);
    assert_eq!(m.as_slice(), &[(7, 'd')]);
    m.remove_less_than(&0);
    assert_eq!(m.as_slice(), &[(7, 'd')]);
}

#[test]
fn remove_less_than_past_every_key() {
    let mut m = VecMap::from_vec(vec![(2, 'a'), (4, 'b')]);
    m.remove_less_than(&9);
    assert!(m.is_empty());
}

#[test]
fn vecmap_insert_remove_lookup() {
    let mut m = VecMap::new();
    assert_eq!(m.insert(3, "x"), None);
    assert_eq!(m.insert(1, "y"), None);
    assert_eq!(m.insert(3, "z"), Some("x"));
    assert_eq!(m.get(&3), Some(&"z"));
    assert_eq!(m.get(&1), Some(&"y"));
    assert_eq!(m.remove(&1), Some("y"));
    assert_eq!(m.get(&1), None);
    assert_eq!(m.remove(&1), None);
    assert!(m.contains_key(&3));
    assert!(!m.contains_key(&2));
    assert_eq!(m.len(), 1);
}

#[test]
fn vecmap_get_mut_and_remove_max() {
    let mut m = VecMap::from_vec(vec![(1, 10), (9, 90), (5, 50)]);
    *m.get_mut(&5).unwrap() += 1;
    assert!(m.get_mut(&6).is_none());
    assert_eq!(m.remove_max(), Some((9, 90)));
    assert_eq!(m.remove_max(), Some((5, 51)));
    assert_eq!(m.remove_max(), Some((1, 10)));
    assert_eq!(m.remove_max(), None);
}

#[test]
fn merge_into_empty_and_sum() {
    let mut a: VecMap<u32, u32> = VecMap::new();
    let b = VecMap::from_vec(vec![(2, 1), (1, 1)]);
    a.merge_copied_with(&b, |x, y| x + y);
    assert_eq!(a.as_slice(), &[(1, 1), (2, 1)]);
    a.merge_copied_with(&b, |x, y| x + y);
    assert_eq!(a.as_slice(), &[(1, 2), (2, 2)]);
    let c = VecMap::from_vec(vec![(0, 7), (3, 7)]);
    a.merge_copied_with(&c, |x, y| x + y);
    assert_eq!(a.as_slice(), &[(0, 7), (1, 2), (2, 2), (3, 7)]);
}

#[test]
fn entry_counts_words() {
    let mut m: VecMap<&str, u32> = VecMap::new();
    for w in ["b", "a", "b", "c", "b", "a"] {
        *m.entry(w).or_insert(0) += 1;
    }
    assert_eq!(m.as_slice(), &[("a", 2), ("b", 3), ("c", 1)]);
}

#[test]
fn entry_variants() {
    let mut m = VecMap::from_vec(vec![(1, 10), (3, 30)]);
    match m.entry(2) {
        Entry::Vacant(e) => {
            assert_eq!(*e.key(), 2);
            assert_eq!(e.into_key(), 2);
        }
        Entry::Occupied(_) => panic!("key 2 is absent"),
    }
    assert_eq!(m.len(), 2);
    match m.entry(3) {
        Entry::Occupied(mut e) => {
            assert_eq!(*e.key(), 3);
            assert_eq!(*e.get(), 30);
            assert_eq!(e.insert(33), 30);
            *e.get_mut() += 1;
            assert_eq!(e.remove_entry(), (3, 34));
        }
        Entry::Vacant(_) => panic!("key 3 is present"),
    }
    assert_eq!(m.as_slice(), &[(1, 10)]);
    match m.entry(1) {
        Entry::Occupied(e) => assert_eq!(e.remove(), 10),
        Entry::Vacant(_) => panic!("key 1 is present"),
    }
    assert!(m.is_empty());
}

#[test]
fn entry_or_insert_family() {
    let mut m: VecMap<u32, u32> = VecMap::new();
    assert_eq!(*m.entry(5).or_default(), 0);
    assert_eq!(*m.entry(6).or_insert_with(|| 60), 60);
    assert_eq!(*m.entry(7).or_insert_with_key(|k| k * 100), 700);
    assert_eq!(*m.entry(6).or_insert_with(|| 1), 60);
    assert_eq!(*m.entry(4).key(), 4);
    let e = m.entry(6).and_modify(|v| *v += 1);
    assert_eq!(*e.or_insert(0), 61);
    let e = m.entry(8).and_modify(|v| *v += 1);
    assert_eq!(*e.or_insert(80), 80);
    assert_eq!(m.as_slice(), &[(5, 0), (6, 61), (7, 700), (8, 80)]);
}

#[test]
fn vecmap_iterators() {
    let m = VecMap::from_vec(vec![(2, 'b'), (1, 'a')]);
    let mut it = m.iter();
    assert_eq!(it.len(), 2);
    assert_eq!(it.next(), Some(&(1, 'a')));
    assert_eq!(it.next(), Some(&(2, 'b')));
    assert_eq!(it.next(), None);
    let mut owned = m.clone().into_iter();
    assert_eq!(owned.len(), 2);
    assert_eq!(owned.next(), Some((1, 'a')));
    assert_eq!(owned.next(), Some((2, 'b')));
    assert_eq!(owned.next(), None);
    let single = VecMap::from_single(4, 'd');
    assert_eq!(single.as_slice(), &[(4, 'd')]);
    let d: VecMap<u8, u8> = VecMap::default();
    assert!(d.is_empty());
    let c: VecMap<u8, u8> = VecMap::with_capacity(8);
    assert_eq!(c.len(), 0);
}

#[test]
fn vecmap_iter_mut_changes_values() {
    let mut m = VecMap::from_vec(vec![(1, 10), (2, 20)]);
    let mut it = m.iter_mut();
    while let Some(e) = it.next() {
        e.1 += 1;
    }
    assert_eq!(m.as_slice(), &[(1, 11), (2, 21)]);
}
