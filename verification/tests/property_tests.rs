use vec_key_value_pair::map::Entry;
use vec_key_value_pair::map::VecMap;
use vec_key_value_pair::set::VecSet;

/// Key uniqueness: however a map was built, every key answers with a single
/// value, and removing it once removes it for good.
#[test]
fn unique_keys_after_mixed_operations() {
    let mut m = VecMap::new();
    m.insert(1, 10);
    m.insert(2, 20);
    m.insert(1, 11);
    m.insert(2, 22);
    m.insert(1, 12);
    assert_eq!(m.len(), 2);
    assert_eq!(m.get(&1), Some(&12));
    assert_eq!(m.get(&2), Some(&22));
    assert_eq!(m.remove(&1), Some(12));
    assert_eq!(m.remove(&1), None);
    assert_eq!(m.len(), 1);
}

/// Overwriting a key moves it to the end of iteration order; a new key is
/// appended last.
#[test]
fn insert_overwrite_moves_key_last() {
    let mut m = VecMap::new();
    m.insert(1, "a");
    m.insert(2, "b");
    m.insert(1, "z");

    let mut it = m.iter();
    assert_eq!(it.next(), Some((&2, &"b")));
    assert_eq!(it.next(), Some((&1, &"z")));
    assert_eq!(it.next(), None);

    m.insert(3, "c");
    let mut it = m.iter();
    assert_eq!(it.next(), Some((&2, &"b")));
    assert_eq!(it.next(), Some((&1, &"z")));
    assert_eq!(it.next(), Some((&3, &"c")));
    assert_eq!(it.next(), None);
}

/// `remove` and `remove_entry` keep the remainder's relative order; the
/// occupied cursor's swap-based `remove` moves the last pair into the hole.
#[test]
fn removal_order_preserving_vs_order_breaking() {
    let mut shift = VecMap::from_vec(vec![(1, 1), (2, 2), (3, 3)]);
    assert_eq!(shift.remove(&1), Some(1));
    let mut it = shift.iter();
    assert_eq!(it.next(), Some((&2, &2)));
    assert_eq!(it.next(), Some((&3, &3)));
    assert_eq!(it.next(), None);

    let mut swap = VecMap::from_vec(vec![(1, 1), (2, 2), (3, 3)]);
    match swap.entry(1) {
        Entry::Occupied(o) => assert_eq!(o.remove(), 1),
        Entry::Vacant(_) => unreachable!(),
    }
    let mut it = swap.iter();
    assert_eq!(it.next(), Some((&3, &3)));
    assert_eq!(it.next(), Some((&2, &2)));
    assert_eq!(it.next(), None);

    let mut shift2 = VecMap::from_vec(vec![(1, 1), (2, 2), (3, 3)]);
    match shift2.entry(1) {
        Entry::Occupied(o) => assert_eq!(o.remove_entry(), (1, 1)),
        Entry::Vacant(_) => unreachable!(),
    }
    let mut it = shift2.iter();
    assert_eq!(it.next(), Some((&2, &2)));
    assert_eq!(it.next(), Some((&3, &3)));
    assert_eq!(it.next(), None);
}

/// Entry round-trip: `entry(k).or_insert(v)` on an absent key stores `v`
/// and grows the map by exactly one.
#[test]
fn entry_or_insert_round_trip() {
    let mut m = VecMap::from_vec(vec![(7, 70)]);
    let before = m.len();
    assert_eq!(*m.entry(5).or_insert(55), 55);
    assert_eq!(m.get(&5), Some(&55));
    assert_eq!(m.len(), before + 1);

    // on a present key nothing is inserted and nothing moves
    assert_eq!(*m.entry(5).or_insert(99), 55);
    assert_eq!(m.get(&5), Some(&55));
    assert_eq!(m.len(), before + 1);
}

/// The `or_insert` relatives resolve the same way.
#[test]
fn entry_or_insert_variants() {
    let mut m: VecMap<i32, i32> = VecMap::new();
    assert_eq!(*m.entry(1).or_insert_with(|| 11), 11);
    assert_eq!(*m.entry(2).or_insert_with_key(|k| k * 7), 14);
    assert_eq!(*m.entry(3).or_default(), 0);
    assert_eq!(*m.entry(1).or_insert_with(|| 99), 11);
    assert_eq!(m.len(), 3);

    match m.entry(9) {
        Entry::Occupied(_) => unreachable!(),
        Entry::Vacant(v) => {
            assert_eq!(*v.key(), 9);
            assert_eq!(v.into_key(), 9);
        }
    }
    assert_eq!(m.len(), 3);

    match m.entry(1) {
        Entry::Occupied(o) => {
            let slot = o.into_mut();
            *slot += 1;
        }
        Entry::Vacant(_) => unreachable!(),
    }
    assert_eq!(m.get(&1), Some(&12));
}

/// Set algebra laws on concrete sets: the partition count, commutativity of
/// union, the empty self-difference, and the symmetric difference as a
/// union of the two one-sided differences.
#[test]
fn set_algebra_laws() {
    let a = VecSet::from_vec(vec![1, 2, 3]);
    let b = VecSet::from_vec(vec![2, 3, 4]);

    // |A n B| + |A \ B| == |A|
    let inter = a.intersection_set(&b);
    let diff = a.difference_set(&b);
    assert_eq!(inter.len() + diff.len(), a.len());

    // A u B == B u A as sets (order may differ)
    assert_eq!(a.union_set(&b), b.union_set(&a));

    // A \ A is empty
    assert!(a.difference_set(&a).is_empty());

    // symmetric_difference(A, B) == union(difference(A, B), difference(B, A))
    let sym = a.symmetric_difference_set(&b);
    let both = a.difference_set(&b).union_set(&b.difference_set(&a));
    assert_eq!(sym, both);
}

/// Idempotence: re-inserting an identical pair leaves the length and every
/// lookup unchanged; only the order shifts.
#[test]
fn reinsert_identical_pair() {
    let mut m = VecMap::from_vec(vec![(1, 10), (2, 20), (3, 30)]);
    assert_eq!(m.insert(2, 20), Some(20));
    assert_eq!(m.len(), 3);
    assert_eq!(m.get(&1), Some(&10));
    assert_eq!(m.get(&2), Some(&20));
    assert_eq!(m.get(&3), Some(&30));

    let mut it = m.iter();
    assert_eq!(it.next(), Some((&1, &10)));
    assert_eq!(it.next(), Some((&3, &30)));
    assert_eq!(it.next(), Some((&2, &20)));
    assert_eq!(it.next(), None);
}

/// Equality is reflexive and symmetric, and does not depend on the order in
/// which the same pairs were written.
#[test]
fn equality_is_order_independent() {
    let m1 = VecMap::from_vec(vec![(1, 10), (2, 20), (3, 30)]);
    let m2 = VecMap::from_vec(vec![(3, 30), (1, 10), (2, 20)]);
    let m3 = VecMap::from_vec(vec![(1, 10), (2, 20), (3, 31)]);

    assert_eq!(m1, m1);
    assert_eq!(m1, m2);
    assert_eq!(m2, m1);
    assert!(m1 != m3);
    assert!(m3 != m1);
}

/// The end-to-end scenario: build a map, update through the entry cursor,
/// then insert through it.
#[test]
fn entry_end_to_end_scenario() {
    let mut m = VecMap::new();
    m.insert(1, 10);
    m.insert(2, 20);
    m.insert(3, 30);

    match m.entry(2) {
        Entry::Occupied(o) => assert_eq!(o.get(), &20),
        Entry::Vacant(_) => unreachable!(),
    }

    m.entry(2).and_modify(|v| *v *= 10).or_insert(0);
    assert_eq!(m.get(&2), Some(&200));

    m.entry(9).and_modify(|v| *v *= 10).or_insert(900);
    assert_eq!(m.get(&9), Some(&900));
    assert_eq!(m.len(), 4);
}

/// `get_key_value` hands both halves of the stored pair back.
#[test]
fn get_key_value_returns_pair() {
    let mut m = VecMap::new();
    m.insert("k", 5);
    assert_eq!(m.get_key_value(&"k"), Some((&"k", &5)));
    assert_eq!(m.get_key_value(&"missing"), None);
}

/// `drain` empties the map and hands every pair out in order.
#[test]
fn drain_hands_pairs_out_in_order() {
    let mut m = VecMap::from_vec(vec![(1, 10), (2, 20)]);
    let mut d = m.drain();
    assert_eq!(d.next(), Some((1, 10)));
    assert_eq!(d.next(), Some((2, 20)));
    assert_eq!(d.next(), None);
    assert!(m.is_empty());
    m.insert(5, 50);
    assert_eq!(m.len(), 1);
}

/// A map compares equal to a hash-based map exactly when they hold the same
/// key-value bindings.
#[test]
fn map_equals_hash_map() {
    let mut m = VecMap::new();
    m.insert(1, 10);
    m.insert(2, 20);

    let mut h = std::collections::HashMap::new();
    h.insert(1, 10);
    assert!(m != h);

    h.insert(2, 20);
    assert!(m == h);

    h.insert(3, 30);
    assert!(m != h);

    h.remove(&3);
    h.insert(2, 99);
    assert!(m != h);
}
