use std::cell::RefCell;
use std::rc::Rc;

use vec_key_value_pair::map::Entry;
use vec_key_value_pair::map::VecMap;

type HM = VecMap<i32, i32>;

#[test]
fn test_zero_capacities() {
    let m = HM::new();
    assert_eq!(m.capacity(), 0);

    let m = HM::default();
    assert_eq!(m.capacity(), 0);

    let m = HM::with_capacity(0);
    assert_eq!(m.capacity(), 0);

    let mut m = HM::new();
    m.insert(1, 1);
    m.insert(2, 2);
    m.remove(&1);
    m.remove(&2);
    m.shrink_to_fit();
    assert_eq!(m.capacity(), 0);

    let mut m = HM::new();
    m.reserve(0);
    assert_eq!(m.capacity(), 0);
}

#[test]
fn test_create_capacity_zero() {
    let mut m = VecMap::with_capacity(0);

    assert!(m.insert(1, 1).is_none());

    assert!(m.contains_key(&1));
    assert!(!m.contains_key(&0));
}

#[test]
fn test_insert() {
    let mut m = VecMap::new();
    assert_eq!(m.len(), 0);
    assert!(m.insert(1, 2).is_none());
    assert_eq!(m.len(), 1);
    assert!(m.insert(2, 4).is_none());
    assert_eq!(m.len(), 2);
    assert_eq!(*m.get(&1).unwrap(), 2);
    assert_eq!(*m.get(&2).unwrap(), 4);
}

#[test]
fn test_clone() {
    let mut m = VecMap::new();
    assert_eq!(m.len(), 0);
    assert!(m.insert(1, 2).is_none());
    assert_eq!(m.len(), 1);
    assert!(m.insert(2, 4).is_none());
    assert_eq!(m.len(), 2);
    let m2 = m.clone();
    assert_eq!(*m2.get(&1).unwrap(), 2);
    assert_eq!(*m2.get(&2).unwrap(), 4);
    assert_eq!(m2.len(), 2);
}

struct Droppable {
    k: usize,
    counts: Rc<RefCell<Vec<i32>>>,
}

impl Droppable {
    fn new(counts: &Rc<RefCell<Vec<i32>>>, k: usize) -> Self {
        counts.borrow_mut()[k] += 1;
        Droppable { k, counts: Rc::clone(counts) }
    }
}

impl PartialEq for Droppable {
    fn eq(&self, other: &Self) -> bool {
        self.k == other.k
    }
}

impl Eq for Droppable {}

impl Drop for Droppable {
    fn drop(&mut self) {
        self.counts.borrow_mut()[self.k] -= 1;
    }
}

impl Clone for Droppable {
    fn clone(&self) -> Self {
        Self::new(&self.counts, self.k)
    }
}

#[test]
fn test_drops() {
    let drop_vector: Rc<RefCell<Vec<i32>>> = Rc::new(RefCell::new(vec![0; 200]));

    {
        let mut m = VecMap::new();

        for i in 0..200 {
            assert_eq!(drop_vector.borrow()[i], 0);
        }

        for i in 0..100 {
            let d1 = Droppable::new(&drop_vector, i);
            let d2 = Droppable::new(&drop_vector, i + 100);
            m.insert(d1, d2);
        }

        for i in 0..200 {
            assert_eq!(drop_vector.borrow()[i], 1);
        }

        for i in 0..50 {
            let k = Droppable::new(&drop_vector, i);
            let v = m.remove(&k);

            assert!(v.is_some());

            assert_eq!(drop_vector.borrow()[i], 1);
            assert_eq!(drop_vector.borrow()[i + 100], 1);
        }

        for i in 0..50 {
            assert_eq!(drop_vector.borrow()[i], 0);
            assert_eq!(drop_vector.borrow()[i + 100], 0);
        }

        for i in 50..100 {
            assert_eq!(drop_vector.borrow()[i], 1);
            assert_eq!(drop_vector.borrow()[i + 100], 1);
        }
    }

    for i in 0..200 {
        assert_eq!(drop_vector.borrow()[i], 0);
    }
}

#[test]
fn test_into_iter_drops() {
    let drop_vector: Rc<RefCell<Vec<i32>>> = Rc::new(RefCell::new(vec![0; 200]));

    let hm = {
        let mut hm = VecMap::new();

        for i in 0..200 {
            assert_eq!(drop_vector.borrow()[i], 0);
        }

        for i in 0..100 {
            let d1 = Droppable::new(&drop_vector, i);
            let d2 = Droppable::new(&drop_vector, i + 100);
            hm.insert(d1, d2);
        }

        for i in 0..200 {
            assert_eq!(drop_vector.borrow()[i], 1);
        }

        hm
    };

    // By the way, ensure that cloning doesn't screw up the dropping.
    drop(hm.clone());

    {
        let mut half = hm.into_iter();

        for i in 0..200 {
            assert_eq!(drop_vector.borrow()[i], 1);
        }

        for _ in 0..50 {
            let _ = half.next();
        }

        let nk = (0..100).filter(|&i| drop_vector.borrow()[i] == 1).count();

        let nv = (0..100).filter(|&i| drop_vector.borrow()[i + 100] == 1).count();

        assert_eq!(nk, 50);
        assert_eq!(nv, 50);
    };

    for i in 0..200 {
        assert_eq!(drop_vector.borrow()[i], 0);
    }
}

#[test]
fn test_empty_remove() {
    let mut m: VecMap<i32, bool> = VecMap::new();
    assert_eq!(m.remove(&0), None);
}

#[test]
fn test_empty_entry() {
    let mut m: VecMap<i32, bool> = VecMap::new();
    match m.entry(0) {
        Entry::Occupied(_) => panic!(),
        Entry::Vacant(_) => {}
    }
    assert!(*m.entry(0).or_insert(true));
    assert_eq!(m.len(), 1);
}

#[test]
fn test_empty_iter() {
    let mut m: VecMap<i32, bool> = VecMap::new();
    assert_eq!(m.drain().next(), None);
    assert_eq!(m.keys().next(), None);
    assert_eq!(m.values().next(), None);
    assert_eq!(m.values_mut().next(), None);
    assert_eq!(m.iter().next(), None);
    assert_eq!(m.iter_mut().next(), None);
    assert_eq!(m.len(), 0);
    assert!(m.is_empty());
    assert_eq!(m.into_iter().next(), None);
}

#[test]
fn test_lots_of_insertions() {
    let mut m = VecMap::new();

    // Try this a few times to make sure we never screw up the map's
    // internal state.
    let loops: i32 = 10;
    for _ in 0..loops {
        assert!(m.is_empty());

        let count: i32 = 1001;

        for i in 1..count {
            assert!(m.insert(i, i).is_none());

            for j in 1..=i {
                let r = m.get(&j);
                assert_eq!(r, Some(&j));
            }

            for j in i + 1..count {
                let r = m.get(&j);
                assert_eq!(r, None);
            }
        }

        for i in count..(2 * count) {
            assert!(!m.contains_key(&i));
        }

        // remove forwards
        for i in 1..count {
            assert!(m.remove(&i).is_some());

            for j in 1..=i {
                assert!(!m.contains_key(&j));
            }

            for j in i + 1..count {
                assert!(m.contains_key(&j));
            }
        }

        for i in 1..count {
            assert!(!m.contains_key(&i));
        }

        for i in 1..count {
            assert!(m.insert(i, i).is_none());
        }

        // remove backwards
        for i in (1..count).rev() {
            assert!(m.remove(&i).is_some());

            for j in i..count {
                assert!(!m.contains_key(&j));
            }

            for j in 1..i {
                assert!(m.contains_key(&j));
            }
        }
    }
}

#[test]
fn test_find_mut() {
    let mut m = VecMap::new();
    assert!(m.insert(1, 12).is_none());
    assert!(m.insert(2, 8).is_none());
    assert!(m.insert(5, 14).is_none());
    let new: i32 = 100;
    match m.get_mut(&5) {
        None => panic!(),
        Some(x) => *x = new,
    }
    assert_eq!(m.get(&5), Some(&new));
}

#[test]
fn test_insert_overwrite() {
    let mut m = VecMap::new();
    assert!(m.insert(1, 2).is_none());
    assert_eq!(*m.get(&1).unwrap(), 2);
    assert!(!m.insert(1, 3).is_none());
    assert_eq!(*m.get(&1).unwrap(), 3);
}

#[test]
fn test_insert_conflicts() {
    let mut m = VecMap::with_capacity(4);
    assert!(m.insert(1, 2).is_none());
    assert!(m.insert(5, 3).is_none());
    assert!(m.insert(9, 4).is_none());
    assert_eq!(*m.get(&9).unwrap(), 4);
    assert_eq!(*m.get(&5).unwrap(), 3);
    assert_eq!(*m.get(&1).unwrap(), 2);
}

#[test]
fn test_conflict_remove() {
    let mut m = VecMap::with_capacity(4);
    assert!(m.insert(1, 2).is_none());
    assert_eq!(*m.get(&1).unwrap(), 2);
    assert!(m.insert(5, 3).is_none());
    assert_eq!(*m.get(&1).unwrap(), 2);
    assert_eq!(*m.get(&5).unwrap(), 3);
    assert!(m.insert(9, 4).is_none());
    assert_eq!(*m.get(&1).unwrap(), 2);
    assert_eq!(*m.get(&5).unwrap(), 3);
    assert_eq!(*m.get(&9).unwrap(), 4);
    assert!(m.remove(&1).is_some());
    assert_eq!(*m.get(&9).unwrap(), 4);
    assert_eq!(*m.get(&5).unwrap(), 3);
}

#[test]
fn test_is_empty() {
    let mut m = VecMap::with_capacity(4);
    assert!(m.insert(1, 2).is_none());
    assert!(!m.is_empty());
    assert!(m.remove(&1).is_some());
    assert!(m.is_empty());
}

#[test]
fn test_remove() {
    let mut m = VecMap::new();
    m.insert(1, 2);
    assert_eq!(m.remove(&1), Some(2));
    assert_eq!(m.remove(&1), None);
}

#[test]
fn test_remove_entry() {
    let mut m = VecMap::new();
    m.insert(1, 2);
    assert_eq!(m.remove_entry(&1), Some((1, 2)));
    assert_eq!(m.remove(&1), None);
}

#[test]
fn test_iterate() {
    let mut m = VecMap::with_capacity(4);
    for i in 0..32 {
        assert!(m.insert(i, i * 2).is_none());
    }
    assert_eq!(m.len(), 32);

    let mut observed: u32 = 0;

    let mut it = m.iter();
    while let Some((k, v)) = it.next() {
        assert_eq!(*v, *k * 2);
        observed |= 1 << *k;
    }
    assert_eq!(observed, 0xFFFF_FFFF);
}

#[test]
fn test_keys() {
    let pairs = [(1, 'a'), (2, 'b'), (3, 'c')];
    let map: VecMap<_, _> = VecMap::from_vec(pairs.to_vec());
    let mut keys: Vec<i32> = Vec::new();
    let mut it = map.keys();
    while let Some(k) = it.next() {
        keys.push(*k);
    }
    assert_eq!(keys.len(), 3);
    assert!(keys.contains(&1));
    assert!(keys.contains(&2));
    assert!(keys.contains(&3));
}

#[test]
fn test_values() {
    let pairs = [(1, 'a'), (2, 'b'), (3, 'c')];
    let map: VecMap<_, _> = VecMap::from_vec(pairs.to_vec());
    let mut values: Vec<char> = Vec::new();
    let mut it = map.values();
    while let Some(v) = it.next() {
        values.push(*v);
    }
    assert_eq!(values.len(), 3);
    assert!(values.contains(&'a'));
    assert!(values.contains(&'b'));
    assert!(values.contains(&'c'));
}

#[test]
fn test_values_mut() {
    let pairs = [(1, 1), (2, 2), (3, 3)];
    let mut map: VecMap<_, _> = VecMap::from_vec(pairs.to_vec());
    let mut it = map.values_mut();
    while let Some(value) = it.next() {
        *value = (*value) * 2;
    }
    let mut values: Vec<i32> = Vec::new();
    let mut it = map.values();
    while let Some(v) = it.next() {
        values.push(*v);
    }
    assert_eq!(values.len(), 3);
    assert!(values.contains(&2));
    assert!(values.contains(&4));
    assert!(values.contains(&6));
}

#[test]
fn test_into_keys() {
    let pairs = [(1, 'a'), (2, 'b'), (3, 'c')];
    let map: VecMap<_, _> = VecMap::from_vec(pairs.to_vec());
    let keys: Vec<i32> = map.into_keys();

    assert_eq!(keys.len(), 3);
    assert!(keys.contains(&1));
    assert!(keys.contains(&2));
    assert!(keys.contains(&3));
}

#[test]
fn test_into_values() {
    let pairs = [(1, 'a'), (2, 'b'), (3, 'c')];
    let map: VecMap<_, _> = VecMap::from_vec(pairs.to_vec());
    let values: Vec<char> = map.into_values();

    assert_eq!(values.len(), 3);
    assert!(values.contains(&'a'));
    assert!(values.contains(&'b'));
    assert!(values.contains(&'c'));
}

#[test]
fn test_find() {
    let mut m = VecMap::new();
    assert!(m.get(&1).is_none());
    m.insert(1, 2);
    match m.get(&1) {
        None => panic!(),
        Some(v) => assert_eq!(*v, 2),
    }
}

#[test]
fn test_eq() {
    let mut m1 = VecMap::new();
    m1.insert(1, 2);
    m1.insert(2, 3);
    m1.insert(3, 4);

    let mut m2 = VecMap::new();
    m2.insert(1, 2);
    m2.insert(2, 3);

    assert!(m1 != m2);

    m2.insert(3, 4);

    assert_eq!(m1, m2);
}

#[test]
fn test_reserve_shrink_to_fit() {
    let mut m = VecMap::new();
    m.insert(0, 0);
    m.remove(&0);
    assert!(m.capacity() >= m.len());
    for i in 0..128 {
        m.insert(i, i);
    }
    m.reserve(256);

    let usable_cap = m.capacity();
    for i in 128..(128 + 256) {
        m.insert(i, i);
        assert_eq!(m.capacity(), usable_cap);
    }

    for i in 100..(128 + 256) {
        assert_eq!(m.remove(&i), Some(i));
    }
    m.shrink_to_fit();

    assert_eq!(m.len(), 100);
    assert!(!m.is_empty());
    assert!(m.capacity() >= m.len());

    for i in 0..100 {
        assert_eq!(m.remove(&i), Some(i));
    }
    m.shrink_to_fit();
    m.insert(0, 0);

    assert_eq!(m.len(), 1);
    assert!(m.capacity() >= m.len());
    assert_eq!(m.remove(&0), Some(0));
}

#[test]
fn test_from_iter() {
    let xs = [(1, 1), (2, 2), (2, 2), (3, 3), (4, 4), (5, 5), (6, 6)];

    let map: VecMap<_, _> = VecMap::from_vec(xs.to_vec());

    for &(k, v) in &xs {
        assert_eq!(map.get(&k), Some(&v));
    }

    assert_eq!(map.iter().len(), xs.len() - 1);
}

#[test]
fn test_size_hint() {
    let xs = [(1, 1), (2, 2), (3, 3), (4, 4), (5, 5), (6, 6)];

    let map: VecMap<_, _> = VecMap::from_vec(xs.to_vec());

    let mut iter = map.iter();

    for _ in 0..3 {
        iter.next();
    }

    assert_eq!(iter.size_hint(), (3, Some(3)));
}

#[test]
fn test_iter_len() {
    let xs = [(1, 1), (2, 2), (3, 3), (4, 4), (5, 5), (6, 6)];

    let map: VecMap<_, _> = VecMap::from_vec(xs.to_vec());

    let mut iter = map.iter();

    for _ in 0..3 {
        iter.next();
    }

    assert_eq!(iter.len(), 3);
}

#[test]
fn test_mut_size_hint() {
    let xs = [(1, 1), (2, 2), (3, 3), (4, 4), (5, 5), (6, 6)];

    let mut map: VecMap<_, _> = VecMap::from_vec(xs.to_vec());

    let mut iter = map.iter_mut();

    for _ in 0..3 {
        iter.next();
    }

    assert_eq!(iter.size_hint(), (3, Some(3)));
}

#[test]
fn test_iter_mut_len() {
    let xs = [(1, 1), (2, 2), (3, 3), (4, 4), (5, 5), (6, 6)];

    let mut map: VecMap<_, _> = VecMap::from_vec(xs.to_vec());

    let mut iter = map.iter_mut();

    for _ in 0..3 {
        iter.next();
    }

    assert_eq!(iter.len(), 3);
}

#[test]
fn test_index() {
    let mut map = VecMap::new();

    map.insert(1, 2);
    map.insert(2, 1);
    map.insert(3, 4);

    assert_eq!(*map.index(&2), 1);
}

#[test]
#[should_panic]
fn test_index_nonexistent() {
    let mut map = VecMap::new();

    map.insert(1, 2);
    map.insert(2, 1);
    map.insert(3, 4);

    map.index(&4);
}

#[test]
fn test_entry() {
    let xs = [(1, 10), (2, 20), (3, 30), (4, 40), (5, 50), (6, 60)];

    let mut map: VecMap<_, _> = VecMap::from_vec(xs.to_vec());

    // Existing key (insert)
    match map.entry(1) {
        Entry::Vacant(_) => unreachable!(),
        Entry::Occupied(view) => {
            assert_eq!(view.get(), &10);
            assert_eq!(view.insert(100), 10);
        }
    }
    assert_eq!(map.get(&1).unwrap(), &100);
    assert_eq!(map.len(), 6);

    // Existing key (update)
    match map.entry(2) {
        Entry::Vacant(_) => unreachable!(),
        Entry::Occupied(mut view) => {
            let v = view.get_mut();
            let new_v = (*v) * 10;
            *v = new_v;
        }
    }
    assert_eq!(map.get(&2).unwrap(), &200);
    assert_eq!(map.len(), 6);

    // Existing key (take)
    match map.entry(3) {
        Entry::Vacant(_) => unreachable!(),
        Entry::Occupied(view) => {
            assert_eq!(view.remove(), 30);
        }
    }
    assert_eq!(map.get(&3), None);
    assert_eq!(map.len(), 5);

    // Inexistent key (insert)
    match map.entry(10) {
        Entry::Occupied(_) => unreachable!(),
        Entry::Vacant(view) => {
            assert_eq!(*view.insert(1000), 1000);
        }
    }
    assert_eq!(map.get(&10).unwrap(), &1000);
    assert_eq!(map.len(), 6);
}

#[test]
fn test_extend_ref() {
    let mut a = VecMap::new();
    a.insert(1, "one");
    let mut b = VecMap::new();
    b.insert(2, "two");
    b.insert(3, "three");

    a.extend(&b);

    assert_eq!(a.len(), 3);
    assert_eq!(*a.index(&1), "one");
    assert_eq!(*a.index(&2), "two");
    assert_eq!(*a.index(&3), "three");
}

#[test]
fn test_capacity_not_less_than_len() {
    let mut a = VecMap::new();
    let mut item: i32 = 0;

    for _ in 0..116 {
        a.insert(item, 0);
        item += 1;
    }

    assert!(a.capacity() > a.len());

    let free = a.capacity() - a.len();
    for _ in 0..free {
        a.insert(item, 0);
        item += 1;
    }

    assert_eq!(a.len(), a.capacity());

    // Insert at capacity should cause allocation.
    a.insert(item, 0);
    assert!(a.capacity() > a.len());
}

#[test]
fn test_occupied_entry_key() {
    let mut a = VecMap::new();
    let key = "hello there";
    let value = "value goes here";
    assert!(a.is_empty());
    a.insert(key, value);
    assert_eq!(a.len(), 1);
    assert_eq!(*a.index(&key), value);

    match a.entry(key) {
        Entry::Vacant(_) => panic!(),
        Entry::Occupied(e) => assert_eq!(key, *e.key()),
    }
    assert_eq!(a.len(), 1);
    assert_eq!(*a.index(&key), value);
}

#[test]
fn test_vacant_entry_key() {
    let mut a = VecMap::new();
    let key = "hello there";
    let value = "value goes here";

    assert!(a.is_empty());
    match a.entry(key) {
        Entry::Occupied(_) => panic!(),
        Entry::Vacant(e) => {
            assert_eq!(key, *e.key());
            e.insert(value);
        }
    }
    assert_eq!(a.len(), 1);
    assert_eq!(*a.index(&key), value);
}

#[test]
fn test_retain() {
    let mut pairs: Vec<(i32, i32)> = Vec::new();
    for x in 0..100 {
        pairs.push((x, x * 10));
    }
    let mut map: VecMap<i32, i32> = VecMap::from_vec(pairs);

    map.retain(|&k, _| k % 2 == 0);
    assert_eq!(map.len(), 50);
    assert_eq!(*map.index(&2), 20);
    assert_eq!(*map.index(&4), 40);
    assert_eq!(*map.index(&6), 60);
}

#[test]
fn from_array() {
    let map = VecMap::from_vec(vec![(1, 2), (3, 4)]);
    let unordered_duplicates = VecMap::from_vec(vec![(3, 4), (1, 2), (1, 2)]);
    assert_eq!(map, unordered_duplicates);

    let _must_not_require_type_annotation = VecMap::from_vec(vec![(1, 2)]);
}
