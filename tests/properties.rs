use ordered_vecmap::vecmap::VecMap;
use ordered_vecmap::vecset::VecSet;

fn set(items: &[u64]) -> VecSet<u64> {
    VecSet::from_vec(items.to_vec())
}

#[test]
fn set_merge_scenario() {
    let a = set(&[1, 2, 3, 5]);
    let b = set(&[2, 4, 5, 6]);
    assert_eq!(a.union_copied(&b).as_slice(), &[1, 2, 3, 4, 5, 6]);
    assert_eq!(a.intersection_copied(&b).as_slice(), &[2, 5]);
    let mut d = a.clone();
    d.difference_copied_inplace(&b);
    assert_eq!(d.as_slice(), &[1, 3]);
}

#[test]
fn union_commutes_and_counts() {
    let a = set(&[9, 1, 4, 7, 3]);
    let b = set(&[4, 2, 8, 9]);
    let ab = a.union_copied(&b);
    let ba = b.union_copied(&a);
    assert_eq!(ab.as_slice(), ba.as_slice());
    let i = a.intersection_copied(&b);
    assert_eq!(ab.len(), a.len() + b.len() - i.len());
    let mut d = a.clone();
    d.difference_copied_inplace(&b);
    assert_eq!(d.len() + i.len(), a.len());
    for x in d.as_slice() {
        assert!(!i.contains(x));
    }
}

#[test]
fn set_idempotence() {
    let a = set(&[5, 3, 8]);
    assert_eq!(a.union_copied(&a).as_slice(), a.as_slice());
    assert_eq!(a.intersection_copied(&a).as_slice(), a.as_slice());
    let mut u = a.clone();
    u.union_copied_inplace(&a);
    assert_eq!(u.as_slice(), a.as_slice());
    let mut d = a.clone();
    d.difference_copied_inplace(&a);
    assert!(d.is_empty());
}

#[test]
fn set_round_trip() {
    let a = set(&[4, 8, 15, 16, 23, 42]);
    let mut items = a.as_slice().to_vec();
    items.reverse();
    assert_eq!(VecSet::from_vec(items).as_slice(), a.as_slice());
}

#[test]
fn map_round_trip() {
    let m = VecMap::from_vec(vec![(3, 'c'), (1, 'a'), (2, 'b')]);
    let mut entries = m.as_slice().to_vec();
    entries.swap(0, 2);
    let again = VecMap::from_vec(entries);
    assert_eq!(again.as_slice(), m.as_slice());
}

#[test]
fn lookup_follows_last_write() {
    let mut m = VecMap::new();
    m.insert(1, 'a');
    m.insert(2, 'b');
    m.insert(1, 'c');
    m.remove(&2);
    m.insert(3, 'd');
    assert_eq!(m.get(&1), Some(&'c'));
    assert_eq!(m.get(&2), None);
    assert_eq!(m.get(&3), Some(&'d'));
    assert_eq!(m.get(&4), None);
    let keys: Vec<i32> = m.as_slice().iter().map(|e| e.0).collect();
    assert_eq!(keys, vec![1, 3]);
}

#[test]
fn merge_keys_commute() {
    let a = VecMap::from_vec(vec![(1, 1), (4, 4), (6, 6)]);
    let b = VecMap::from_vec(vec![(2, 20), (4, 40)]);
    let mut ab = a.clone();
    ab.merge_copied_with(&b, |x, y| x + y);
    let mut ba = b.clone();
    ba.merge_copied_with(&a, |x, y| x + y);
    let keys_ab: Vec<i32> = ab.as_slice().iter().map(|e| e.0).collect();
    let keys_ba: Vec<i32> = ba.as_slice().iter().map(|e| e.0).collect();
    assert_eq!(keys_ab, vec![1, 2, 4, 6]);
    assert_eq!(keys_ab, keys_ba);
    assert_eq!(ab.as_slice(), &[(1, 1), (2, 20), (4, 44), (6, 6)]);
}
