use ordered_vecmap::vecset::VecSet;

#[test]
fn vecset_from_vec() {
    let s = VecSet::<u64>::from_vec(vec![1, 4, 3, 2, 5, 7, 9, 2, 4, 6, 7, 8, 0]);
    assert_eq!(s.as_slice(), &[0, 1, 2, 3, 4, 5, 6, 7, 8, 9])
}

#[test]
fn union() {
    {
        let mut s1 = VecSet::<u64>::from_vec(vec![1, 2, 3, 5]);
        let s2 = VecSet::<u64>::from_vec(vec![2, 4, 5, 6]);
        s1.union_copied_inplace(&s2);
        assert_eq!(s1.as_slice(), &[1, 2, 3, 4, 5, 6])
    }
    {
        let s1 = VecSet::<u64>::from_vec(vec![1, 2, 3, 5]);
        let s2 = VecSet::<u64>::from_vec(vec![2, 4, 5, 6]);
        let s3 = s1.union_copied(&s2);
        assert_eq!(s3.as_slice(), &[1, 2, 3, 4, 5, 6])
    }
}

#[test]
fn intersection() {
    let s1 = VecSet::<u64>::from_vec(vec![1, 2, 3, 5]);
    let s2 = VecSet::<u64>::from_vec(vec![2, 4, 5, 6]);
    let s3 = s1.intersection_copied(&s2);
    assert_eq!(s3.as_slice(), &[2, 5])
}

#[test]
fn difference() {
    {
        let mut s1 = VecSet::<u64>::from_vec(vec![1, 2, 3, 5]);
        let s2 = VecSet::<u64>::from_vec(vec![2, 4, 5, 6]);
        s1.difference_copied_inplace(&s2);
        assert_eq!(s1.as_slice(), &[1, 3])
    }
    {
        let mut s1 = VecSet::<u64>::from_vec(vec![1, 2, 3, 5]);
        let s2 = VecSet::<u64>::from_vec(vec![]);
        s1.difference_copied_inplace(&s2);
        assert_eq!(s1.as_slice(), &[1, 2, 3, 5])
    }
    {
        let mut s1 = VecSet::<u64>::from_vec(vec![3]);
        let s2 = VecSet::<u64>::from_vec(vec![1, 2, 4, 5]);
        s1.difference_copied_inplace(&s2);
        assert_eq!(s1.as_slice(), &[3])
    }
}

#[test]
fn set_algebra_with_empty_sides() {
    let empty = VecSet::<u64>::new();
    let s = VecSet::<u64>::from_vec(vec![3, 1, 2]);
    assert_eq!(empty.union_copied(&s).as_slice(), &[1, 2, 3]);
    assert_eq!(s.union_copied(&empty).as_slice(), &[1, 2, 3]);
    assert!(empty.union_copied(&empty).is_empty());
    assert!(s.intersection_copied(&empty).is_empty());
    assert!(empty.intersection_copied(&s).is_empty());
    let mut e = VecSet::<u64>::new();
    e.union_copied_inplace(&s);
    assert_eq!(e.as_slice(), &[1, 2, 3]);
    let mut e = VecSet::<u64>::new();
    e.difference_copied_inplace(&s);
    assert!(e.is_empty());
}

#[test]
fn set_insert_remove_contains() {
    let mut s = VecSet::<i32>::new();
    assert_eq!(s.insert(5), None);
    assert_eq!(s.insert(-1), None);
    assert_eq!(s.insert(5), Some(5));
    assert_eq!(s.insert(3), None);
    assert_eq!(s.as_slice(), &[-1, 3, 5]);
    assert!(s.contains(&3));
    assert!(!s.contains(&4));
    assert_eq!(s.remove(&3), Some(3));
    assert_eq!(s.remove(&3), None);
    assert_eq!(s.as_slice(), &[-1, 5]);
    assert_eq!(s.len(), 2);
}

#[test]
fn set_iterators_and_builders() {
    let s = VecSet::from_vec(vec![3u8, 1, 2]);
    let mut it = s.iter();
    assert_eq!(it.len(), 3);
    assert_eq!(it.next(), Some(&1));
    assert_eq!(it.next(), Some(&2));
    assert_eq!(it.next(), Some(&3));
    assert_eq!(it.next(), None);
    let mut owned = s.clone().into_iter();
    assert_eq!(owned.len(), 3);
    assert_eq!(owned.next(), Some(1));
    assert_eq!(owned.next(), Some(2));
    assert_eq!(owned.next(), Some(3));
    assert_eq!(owned.next(), None);
    assert_eq!(VecSet::from_single(9u8).as_slice(), &[9]);
    assert!(VecSet::<u8>::default().is_empty());
    assert!(VecSet::<u8>::with_capacity(4).is_empty());
}

#[test]
fn set_iter_mut_visits_in_order() {
    let mut s = VecSet::from_vec(vec![30u32, 10, 20]);
    let mut seen = Vec::new();
    let mut it = s.iter_mut();
    while let Some(x) = it.next() {
        seen.push(*x);
        *x += 1;
    }
    assert_eq!(seen, vec![10, 20, 30]);
    assert_eq!(s.as_slice(), &[11, 21, 31]);
}
