use ordered_vecmap::OrderedVecMap;

#[test]
fn simple() {
    let n: i32 = 100;
    let mut pairs = Vec::new();
    for x in 0..n {
        pairs.push((x, x));
    }
    let map = OrderedVecMap::from_vec(pairs);
    for i in (-n)..(n * 2) {
        if (0..n).contains(&i) {
            assert!(map.contains_key(&i));
            assert_eq!(map.get(&i), Some(&i));
        } else {
            assert!(!map.contains_key(&i));
            assert!(map.get(&i).is_none());
        }
    }
    let mut it = map.iter();
    while let Some((x, y)) = it.next() {
        assert_eq!(x, y);
    }
}

#[test]
fn strings() {
    let n: i32 = 100;
    let mut map = OrderedVecMap::new();
    for x in 0..n {
        let s1 = x.to_string();
        let s2 = s1.clone();
        assert!(map.insert(s1, s2).is_none());
    }

    for i in (-n)..(n * 2) {
        let s = i.to_string();
        if (0..n).contains(&i) {
            assert!(map.contains_key(&s));
            assert_eq!(map.get(&s), Some(&s));
            assert_eq!(map.remove(&s).as_deref(), Some(s.as_str()));
        } else {
            assert!(!map.contains_key(&s));
            assert!(map.get(&s).is_none());
        }
    }
}

#[test]
fn ordered_from_vec_keeps_last() {
    let map = OrderedVecMap::from_vec(vec![(4, "a"), (2, "b"), (5, "c"), (2, "d")]);
    assert_eq!(map.keys_slice(), &[2, 4, 5]);
    assert_eq!(map.values_slice(), &["d", "a", "c"]);
    assert_eq!(map.len(), 3);
}

#[test]
fn ordered_insert_paths() {
    let mut map = OrderedVecMap::new();
    assert!(map.is_empty());
    assert_eq!(map.insert(10, 'a'), None);
    assert_eq!(map.insert(20, 'b'), None);
    assert_eq!(map.insert(20, 'c'), Some('b'));
    assert_eq!(map.insert(5, 'd'), None);
    assert_eq!(map.insert(15, 'e'), None);
    assert_eq!(map.insert(10, 'f'), Some('a'));
    assert_eq!(map.keys_slice(), &[5, 10, 15, 20]);
    assert_eq!(map.values_slice(), &['d', 'f', 'e', 'c']);
    assert_eq!(map.keys_slice().len(), map.values_slice().len());
}

#[test]
fn ordered_remove_and_get_mut() {
    let mut map = OrderedVecMap::from_vec(vec![(1, 10), (2, 20), (3, 30)]);
    assert_eq!(map.remove(&2), Some(20));
    assert_eq!(map.remove(&2), None);
    assert_eq!(map.keys_slice(), &[1, 3]);
    assert_eq!(map.values_slice(), &[10, 30]);
    if let Some(v) = map.get_mut(&3) {
        *v += 5;
    }
    assert!(map.get_mut(&4).is_none());
    assert_eq!(map.get(&3), Some(&35));
}

#[test]
fn ordered_iter_both_ends() {
    let map = OrderedVecMap::from_vec(vec![(3, 'c'), (1, 'a'), (2, 'b')]);
    let mut it = map.iter();
    assert_eq!(it.len(), 3);
    assert_eq!(it.next(), Some((&1, &'a')));
    assert_eq!(it.next_back(), Some((&3, &'c')));
    assert_eq!(it.len(), 1);
    assert_eq!(it.next_back(), Some((&2, &'b')));
    assert_eq!(it.next(), None);
    assert_eq!(it.next_back(), None);
}

#[test]
fn ordered_round_trip() {
    let map = OrderedVecMap::from_vec(vec![(9, 1), (3, 2), (6, 3)]);
    let mut entries = Vec::new();
    let mut it = map.iter();
    while let Some((k, v)) = it.next() {
        entries.push((*k, *v));
    }
    entries.reverse();
    let again = OrderedVecMap::from_vec(entries);
    assert_eq!(again.keys_slice(), map.keys_slice());
    assert_eq!(again.values_slice(), map.values_slice());
}
