use vec_key_value_pair::set::VecSet;

#[test]
fn set_insert_and_contains() {
    let mut s = VecSet::new();
    assert!(s.is_empty());
    assert!(s.insert(1));
    assert!(s.insert(2));
    assert!(s.insert(3));
    assert_eq!(s.len(), 3);
    assert!(s.contains(&1));
    assert!(s.contains(&2));
    assert!(s.contains(&3));
    assert!(!s.contains(&4));
}

#[test]
fn set_insert_duplicate_is_noop() {
    let mut s = VecSet::new();
    assert!(s.insert(1));
    assert!(s.insert(2));
    assert!(!s.insert(1));
    assert_eq!(s.len(), 2);

    // a duplicate insert does not even reorder
    let mut it = s.iter();
    assert_eq!(it.next(), Some(&1));
    assert_eq!(it.next(), Some(&2));
    assert_eq!(it.next(), None);
}

#[test]
fn set_replace_moves_to_end() {
    let mut s = VecSet::new();
    s.insert(1);
    s.insert(2);
    s.insert(3);
    assert_eq!(s.replace(1), Some(1));
    assert_eq!(s.len(), 3);

    let mut it = s.iter();
    assert_eq!(it.next(), Some(&2));
    assert_eq!(it.next(), Some(&3));
    assert_eq!(it.next(), Some(&1));
    assert_eq!(it.next(), None);

    assert_eq!(s.replace(9), None);
    assert_eq!(s.len(), 4);
}

#[test]
fn set_remove_keeps_order() {
    let mut s = VecSet::new();
    s.insert(1);
    s.insert(2);
    s.insert(3);
    assert!(s.remove(&2));
    assert!(!s.remove(&2));
    assert_eq!(s.len(), 2);

    let mut it = s.iter();
    assert_eq!(it.next(), Some(&1));
    assert_eq!(it.next(), Some(&3));
    assert_eq!(it.next(), None);
}

#[test]
fn set_get_returns_stored_element() {
    let mut s = VecSet::new();
    s.insert("alpha");
    s.insert("beta");
    assert_eq!(s.get(&"alpha"), Some(&"alpha"));
    assert_eq!(s.get(&"gamma"), None);
}

#[test]
fn set_subset_superset_disjoint() {
    let mut a = VecSet::new();
    a.insert(1);
    a.insert(2);
    let mut b = VecSet::new();
    b.insert(1);
    b.insert(2);
    b.insert(3);
    let mut c = VecSet::new();
    c.insert(7);

    assert!(a.is_subset(&b));
    assert!(!b.is_subset(&a));
    assert!(b.is_superset(&a));
    assert!(!a.is_superset(&b));
    assert!(a.is_disjoint(&c));
    assert!(!a.is_disjoint(&b));

    let empty: VecSet<i32> = VecSet::new();
    assert!(empty.is_subset(&a));
    assert!(empty.is_disjoint(&a));
    assert!(a.is_superset(&empty));
}

#[test]
fn set_difference_cursor() {
    let a = VecSet::from_vec(vec![1, 2, 3, 4]);
    let b = VecSet::from_vec(vec![2, 4, 5]);

    let mut it = a.difference(&b);
    assert_eq!(it.next(), Some(&1));
    assert_eq!(it.next(), Some(&3));
    assert_eq!(it.next(), None);
    assert_eq!(it.next(), None);
}

#[test]
fn set_intersection_cursor_drives_smaller() {
    let a = VecSet::from_vec(vec![1, 2, 3, 4]);
    let b = VecSet::from_vec(vec![4, 2, 5]);

    // b is smaller, so the intersection comes in b's order
    let mut it = a.intersection(&b);
    assert_eq!(it.next(), Some(&4));
    assert_eq!(it.next(), Some(&2));
    assert_eq!(it.next(), None);
}

#[test]
fn set_union_cursor_larger_first() {
    let a = VecSet::from_vec(vec![1, 2, 3]);
    let b = VecSet::from_vec(vec![3, 9]);

    // a is larger: all of a, then what b adds
    let mut it = a.union(&b);
    assert_eq!(it.next(), Some(&1));
    assert_eq!(it.next(), Some(&2));
    assert_eq!(it.next(), Some(&3));
    assert_eq!(it.next(), Some(&9));
    assert_eq!(it.next(), None);
}

#[test]
fn set_symmetric_difference_cursor() {
    let a = VecSet::from_vec(vec![1, 2, 3]);
    let b = VecSet::from_vec(vec![2, 3, 4]);

    let mut it = a.symmetric_difference(&b);
    assert_eq!(it.next(), Some(&1));
    assert_eq!(it.next(), Some(&4));
    assert_eq!(it.next(), None);
}

#[test]
fn set_iter_len_and_size_hint() {
    let s = VecSet::from_vec(vec![10, 20, 30]);
    let mut it = s.iter();
    assert_eq!(it.len(), 3);
    assert_eq!(it.size_hint(), (3, Some(3)));
    it.next();
    assert_eq!(it.len(), 2);
    assert_eq!(it.size_hint(), (2, Some(2)));
}

#[test]
fn set_drain_empties() {
    let mut s = VecSet::from_vec(vec![1, 2]);
    let mut d = s.drain();
    assert_eq!(d.next(), Some(1));
    assert_eq!(d.next(), Some(2));
    assert_eq!(d.next(), None);
    assert!(s.is_empty());
}

#[test]
fn set_into_iter_yields_in_order() {
    let s = VecSet::from_vec(vec![5, 6, 7]);
    let mut it = s.into_iter();
    assert_eq!(it.len(), 3);
    assert_eq!(it.next(), Some(5));
    assert_eq!(it.next(), Some(6));
    assert_eq!(it.next(), Some(7));
    assert_eq!(it.next(), None);
}

#[test]
fn set_retain_keeps_order() {
    let mut s = VecSet::from_vec(vec![1, 2, 3, 4, 5, 6]);
    s.retain(|&x| x % 2 == 0);
    assert_eq!(s.len(), 3);
    let mut it = s.iter();
    assert_eq!(it.next(), Some(&2));
    assert_eq!(it.next(), Some(&4));
    assert_eq!(it.next(), Some(&6));
    assert_eq!(it.next(), None);
}

#[test]
fn set_from_vec_first_occurrence_wins() {
    let s = VecSet::from_vec(vec![3, 1, 3, 2, 1]);
    assert_eq!(s.len(), 3);
    let mut it = s.iter();
    assert_eq!(it.next(), Some(&3));
    assert_eq!(it.next(), Some(&1));
    assert_eq!(it.next(), Some(&2));
    assert_eq!(it.next(), None);
}

#[test]
fn set_extend_appends_new_elements() {
    let mut s = VecSet::from_vec(vec![1, 2]);
    s.extend(vec![2, 3, 4]);
    assert_eq!(s.len(), 4);
    let mut it = s.iter();
    assert_eq!(it.next(), Some(&1));
    assert_eq!(it.next(), Some(&2));
    assert_eq!(it.next(), Some(&3));
    assert_eq!(it.next(), Some(&4));
    assert_eq!(it.next(), None);
}

#[test]
fn set_clear_and_capacity() {
    let mut s = VecSet::with_capacity(8);
    assert_eq!(s.len(), 0);
    s.insert(1);
    s.insert(2);
    s.clear();
    assert!(s.is_empty());
    assert!(!s.contains(&1));

    s.reserve(10);
    assert!(s.capacity() >= 10);
    assert!(s.try_reserve(4).is_ok());
    s.insert(1);
    s.shrink_to_fit();
    assert!(s.contains(&1));
    assert!(s.capacity() >= s.len());
    s.shrink_to(1);
    assert!(s.contains(&1));
}

#[test]
fn set_equality_ignores_order() {
    let a = VecSet::from_vec(vec![1, 2, 3]);
    let b = VecSet::from_vec(vec![3, 2, 1]);
    let c = VecSet::from_vec(vec![1, 2]);
    assert_eq!(a, b);
    assert!(a != c);
    assert_eq!(a, a.clone());
}

#[test]
fn set_materialized_algebra() {
    let a = VecSet::from_vec(vec![1, 2, 3, 4]);
    let b = VecSet::from_vec(vec![3, 4, 5]);

    let d = a.difference_set(&b);
    assert_eq!(d, VecSet::from_vec(vec![1, 2]));

    let i = a.intersection_set(&b);
    assert_eq!(i, VecSet::from_vec(vec![3, 4]));

    let u = a.union_set(&b);
    assert_eq!(u, VecSet::from_vec(vec![1, 2, 3, 4, 5]));

    let x = a.symmetric_difference_set(&b);
    assert_eq!(x, VecSet::from_vec(vec![1, 2, 5]));
}
