//! `VecMap`: an association map over a growable sequence of key-value pairs,
//! searched by linear scan.
//!
//! The backing sequence holds at most one pair per key. Iteration order is
//! insertion order, except that writing to a key that is already present
//! removes the old pair first and appends the new one, which moves that key
//! to the end of the order. `remove` and `remove_entry` shift the remainder
//! and keep its relative order.
use vstd::prelude::*;

verus! {

use crate::eq_decides;
use crate::masked;

// ---------------------------------------------------------------------------
// The model: a map is a sequence of pairs with pairwise-distinct keys.
// ---------------------------------------------------------------------------

/// No two stored pairs share a key.
pub open spec fn unique_keys<K, V>(s: Seq<(K, V)>) -> bool {
    forall|i: int, j: int| 0 <= i < j < s.len() ==> s[i].0 != s[j].0
}

/// Some stored pair has key `k`.
pub open spec fn has_key<K, V>(s: Seq<(K, V)>, k: K) -> bool {
    exists|i: int| 0 <= i < s.len() && s[i].0 == k
}

/// Index of the first pair with key `k`; the length when `k` is absent.
pub open spec fn key_index<K, V>(s: Seq<(K, V)>, k: K) -> int
    decreases s.len(),
{
    if s.len() == 0 {
        0
    } else if s[0].0 == k {
        0
    } else {
        1 + key_index(s.drop_first(), k)
    }
}

/// The value stored under `k`, if any.
pub open spec fn value_at<K, V>(s: Seq<(K, V)>, k: K) -> Option<V> {
    if has_key(s, k) {
        Some(s[key_index(s, k)].1)
    } else {
        None
    }
}

/// The stored pair with key `k`, if any.
pub open spec fn pair_at<K, V>(s: Seq<(K, V)>, k: K) -> Option<(K, V)> {
    if has_key(s, k) {
        Some(s[key_index(s, k)])
    } else {
        None
    }
}

/// The sequence with the pair under `k` (if any) taken out, order kept.
pub open spec fn without_key<K, V>(s: Seq<(K, V)>, k: K) -> Seq<(K, V)> {
    if has_key(s, k) {
        s.remove(key_index(s, k))
    } else {
        s
    }
}

/// What an insert leaves behind: the pair under `k` (if any) removed, the
/// new pair appended at the end.
pub open spec fn upserted<K, V>(s: Seq<(K, V)>, k: K, v: V) -> Seq<(K, V)> {
    without_key(s, k).push((k, v))
}

/// Every pair of `a` is stored in `b`: looking its key up in `b` yields its
/// value.
pub open spec fn submap_of<K, V>(a: Seq<(K, V)>, b: Seq<(K, V)>) -> bool {
    forall|i: int| 0 <= i < a.len() ==> value_at(b, a[i].0) == Some(a[i].1)
}

/// `a` and `b` store the same key-value pairs, in whatever order.
pub open spec fn same_entries<K, V>(a: Seq<(K, V)>, b: Seq<(K, V)>) -> bool {
    submap_of(a, b) && submap_of(b, a)
}

// ---------------------------------------------------------------------------
// Facts about the model.
// ---------------------------------------------------------------------------

/// `key_index` points at the first pair with key `k` and at nothing earlier;
/// it stays within the sequence exactly when the key is present.
pub proof fn lemma_key_index<K, V>(s: Seq<(K, V)>, k: K)
    ensures
        0 <= key_index(s, k) <= s.len(),
        has_key(s, k) <==> key_index(s, k) < s.len(),
        has_key(s, k) ==> s[key_index(s, k)].0 == k,
        forall|j: int| 0 <= j < key_index(s, k) ==> s[j].0 != k,
    decreases s.len(),
{
    if s.len() == 0 {
        assert(!has_key(s, k));
    } else if s[0].0 == k {
        assert(has_key(s, k));
    } else {
        let t = s.drop_first();
        lemma_key_index(t, k);
        assert(forall|i: int| 0 <= i < t.len() ==> t[i] == s[i + 1]);
        if has_key(t, k) {
            let i = choose|i: int| 0 <= i < t.len() && t[i].0 == k;
            assert(s[i + 1].0 == k);
            assert(has_key(s, k));
        }
        if has_key(s, k) {
            let i = choose|i: int| 0 <= i < s.len() && s[i].0 == k;
            assert(i != 0);
            assert(t[i - 1].0 == k);
            assert(has_key(t, k));
        }
        assert forall|j: int| 0 <= j < key_index(s, k) implies s[j].0 != k by {
            if j > 0 {
                assert(t[j - 1] == s[j]);
            }
        }
    }
}

/// With unique keys, any index holding key `k` is the one `key_index` finds.
pub proof fn lemma_key_index_unique<K, V>(s: Seq<(K, V)>, k: K)
    requires
        unique_keys(s),
    ensures
        forall|i: int| 0 <= i < s.len() && s[i].0 == k ==> key_index(s, k) == i,
{
    lemma_key_index(s, k);
    assert forall|i: int| 0 <= i < s.len() && s[i].0 == k implies key_index(s, k) == i by {
        assert(has_key(s, k));
        let ki = key_index(s, k);
        if ki < i {
            assert(s[ki].0 == s[i].0);
        }
    }
}

/// With unique keys, storing a pair and the lookup of its key agree.
pub proof fn lemma_lookup_is_containment<K, V>(s: Seq<(K, V)>, k: K, v: V)
    requires
        unique_keys(s),
    ensures
        value_at(s, k) == Some(v) <==> s.contains((k, v)),
{
    lemma_key_index(s, k);
    lemma_key_index_unique(s, k);
    if s.contains((k, v)) {
        let i = choose|i: int| 0 <= i < s.len() && s[i] == (k, v);
        assert(s[i].0 == k);
        assert(has_key(s, k));
        assert(key_index(s, k) == i);
    }
    if value_at(s, k) == Some(v) {
        assert(has_key(s, k));
        assert(s[key_index(s, k)] == (k, v));
    }
}

/// Taking the pair under `k` out keeps the other keys, their values, and key
/// uniqueness; afterwards `k` is absent.
pub proof fn lemma_without_key<K, V>(s: Seq<(K, V)>, k: K)
    requires
        unique_keys(s),
    ensures
        unique_keys(without_key(s, k)),
        !has_key(without_key(s, k), k),
        without_key(s, k).len() == s.len() - (if has_key(s, k) {
            1int
        } else {
            0int
        }),
        forall|k2: K| k2 != k ==> has_key(without_key(s, k), k2) == has_key(s, k2),
        forall|k2: K| k2 != k ==> value_at(without_key(s, k), k2) == value_at(s, k2),
{
    lemma_key_index(s, k);
    if !has_key(s, k) {
        return ;
    }
    let ki = key_index(s, k);
    let t = s.remove(ki);
    // every element of t is an element of s at a shifted index
    assert(forall|i: int| 0 <= i < ki ==> t[i] == s[i]);
    assert(forall|i: int| ki <= i < t.len() ==> t[i] == s[i + 1]);
    assert forall|i: int, j: int| 0 <= i < j < t.len() implies t[i].0 != t[j].0 by {
        let si = if i < ki {
            i
        } else {
            i + 1
        };
        let sj = if j < ki {
            j
        } else {
            j + 1
        };
        assert(t[i] == s[si] && t[j] == s[sj]);
    }
    assert forall|i: int| 0 <= i < t.len() implies t[i].0 != k by {
        let si = if i < ki {
            i
        } else {
            i + 1
        };
        assert(t[i] == s[si]);
        if si != ki {
            lemma_key_index_unique(s, k);
        }
    }
    assert(!has_key(t, k));
    assert forall|k2: K| k2 != k implies has_key(t, k2) == has_key(s, k2) && value_at(t, k2)
        == value_at(s, k2) by {
        if has_key(s, k2) {
            let i = choose|i: int| 0 <= i < s.len() && s[i].0 == k2;
            assert(i != ki);
            let ti = if i < ki {
                i
            } else {
                i - 1
            };
            assert(t[ti] == s[i]);
            assert(has_key(t, k2));
        }
        if has_key(t, k2) {
            let i = choose|i: int| 0 <= i < t.len() && t[i].0 == k2;
            let si = if i < ki {
                i
            } else {
                i + 1
            };
            assert(t[i] == s[si]);
            assert(has_key(s, k2));
        }
        if has_key(s, k2) {
            lemma_key_index(s, k2);
            lemma_key_index(t, k2);
            lemma_key_index_unique(s, k2);
            lemma_key_index_unique(t, k2);
            let i = key_index(s, k2);
            let ti = if i < ki {
                i
            } else {
                i - 1
            };
            assert(t[ti] == s[i]);
            assert(key_index(t, k2) == ti);
            assert(value_at(t, k2) == Some(s[i].1));
        }
    }
}

/// An upsert stores `v` under `k`, keeps every other key and value, keeps key
/// uniqueness, and grows the map exactly when `k` was absent.
pub proof fn lemma_upserted<K, V>(s: Seq<(K, V)>, k: K, v: V)
    requires
        unique_keys(s),
    ensures
        unique_keys(upserted(s, k, v)),
        has_key(upserted(s, k, v), k),
        value_at(upserted(s, k, v), k) == Some(v),
        upserted(s, k, v).len() == s.len() + (if has_key(s, k) {
            0int
        } else {
            1int
        }),
        forall|k2: K| k2 != k ==> has_key(upserted(s, k, v), k2) == has_key(s, k2),
        forall|k2: K| k2 != k ==> value_at(upserted(s, k, v), k2) == value_at(s, k2),
{
    lemma_without_key(s, k);
    let t = without_key(s, k);
    let u = t.push((k, v));
    assert(forall|i: int| 0 <= i < t.len() ==> u[i] == t[i]);
    assert(u[t.len() as int] == (k, v));
    assert forall|i: int, j: int| 0 <= i < j < u.len() implies u[i].0 != u[j].0 by {
        if j < t.len() {
        } else {
            assert(u[j] == (k, v));
            assert(t[i].0 != k);
        }
    }
    assert(has_key(u, k));
    lemma_key_index_unique(u, k);
    assert(key_index(u, k) == t.len());
    assert forall|k2: K| k2 != k implies has_key(u, k2) == has_key(t, k2) && value_at(u, k2)
        == value_at(t, k2) by {
        if has_key(t, k2) {
            let i = choose|i: int| 0 <= i < t.len() && t[i].0 == k2;
            assert(u[i].0 == k2);
            assert(has_key(u, k2));
        }
        if has_key(u, k2) {
            let i = choose|i: int| 0 <= i < u.len() && u[i].0 == k2;
            assert(i < t.len());
            assert(has_key(t, k2));
        }
        if has_key(t, k2) {
            lemma_key_index_unique(t, k2);
            lemma_key_index_unique(u, k2);
            lemma_key_index(t, k2);
            let i = key_index(t, k2);
            assert(u[i] == t[i]);
            assert(key_index(u, k2) == i);
        }
    }
}

// ---------------------------------------------------------------------------
// The container.
// ---------------------------------------------------------------------------

/// An association map over a growable sequence of pairs, searched by linear
/// scan; at most one pair per key.
#[derive(Debug, Clone)]
pub struct VecMap<K, V> {
    pairs: Vec<(K, V)>,
}

impl<K, Vl> View for VecMap<K, Vl> {
    type V = Seq<(K, Vl)>;

    closed spec fn view(&self) -> Seq<(K, Vl)> {
        self.pairs@
    }
}

impl<K, V> VecMap<K, V> {
    /// The key-uniqueness invariant: no two stored pairs share a key. Every
    /// constructor establishes it and every operation keeps it.
    pub open spec fn wf(self) -> bool {
        unique_keys(self@)
    }

    /// Creates an empty map.
    pub fn new() -> (r: Self)
        ensures
            r@ == Seq::<(K, V)>::empty(),
            r.wf(),
    {
        VecMap { pairs: Vec::new() }
    }

    /// Creates an empty map whose backing sequence has room for at least
    /// `capacity` pairs.
    pub fn with_capacity(capacity: usize) -> (r: Self)
        ensures
            r@ == Seq::<(K, V)>::empty(),
            r.wf(),
    {
        VecMap { pairs: Vec::with_capacity(capacity) }
    }

    /// Number of stored pairs.
    pub fn len(&self) -> (r: usize)
        ensures
            r == self@.len(),
    {
        self.pairs.len()
    }

    /// True when nothing is stored.
    pub fn is_empty(&self) -> (r: bool)
        ensures
            r <==> self@.len() == 0,
    {
        self.pairs.is_empty()
    }

    /// How many pairs the backing sequence can hold without reallocating.
    pub fn capacity(&self) -> (r: usize)
        ensures
            r >= self@.len(),
    {
        crate::storage::vec_capacity(&self.pairs)
    }

    /// Reserves room for at least `additional` further pairs.
    pub fn reserve(&mut self, additional: usize)
        ensures
            final(self)@ == old(self)@,
    {
        self.pairs.reserve(additional);
    }

    /// Reserves room for at least `additional` further pairs, reporting
    /// allocation failure instead of aborting.
    pub fn try_reserve(&mut self, additional: usize) -> (r: Result<
        (),
        std::collections::TryReserveError,
    >)
        ensures
            final(self)@ == old(self)@,
    {
        self.pairs.try_reserve(additional)
    }

    /// Drops excess capacity of the backing sequence.
    pub fn shrink_to_fit(&mut self)
        ensures
            final(self)@ == old(self)@,
    {
        crate::storage::vec_shrink_to_fit(&mut self.pairs);
    }

    /// Drops capacity of the backing sequence down to the given lower bound.
    pub fn shrink_to(&mut self, min_capacity: usize)
        ensures
            final(self)@ == old(self)@,
    {
        crate::storage::vec_shrink_to(&mut self.pairs, min_capacity);
    }

    /// Removes every pair.
    pub fn clear(&mut self)
        ensures
            final(self)@ == Seq::<(K, V)>::empty(),
            final(self).wf(),
    {
        self.pairs.clear();
    }
}

impl<K: Eq, V> VecMap<K, V> {
    /// Index of the first pair whose key equals `*k`, by one forward scan.
    fn index_of(&self, k: &K) -> (r: Option<usize>)
        ensures
            r matches Some(i) ==> i < self@.len(),
            eq_decides::<K>() ==> match r {
                Some(i) => has_key(self@, *k) && i as int == key_index(self@, *k),
                None => !has_key(self@, *k),
            },
    {
        let n = self.pairs.len();
        let mut i: usize = 0;
        while i < n
            invariant
                n == self.pairs@.len(),
                i <= n,
                eq_decides::<K>() ==> forall|j: int| 0 <= j < i ==> self.pairs@[j].0 != *k,
            decreases n - i,
        {
            if &self.pairs[i].0 == k {
                proof {
                    if eq_decides::<K>() {
                        lemma_key_index(self@, *k);
                        assert(has_key(self@, *k));
                        let ki = key_index(self@, *k);
                        if ki < i {
                            assert(self@[ki].0 != *k);
                        }
                        assert(ki == i);
                    }
                }
                return Some(i);
            }
            i += 1;
        }
        proof {
            if eq_decides::<K>() && has_key(self@, *k) {
                let w = choose|j: int| 0 <= j < self@.len() && self@[j].0 == *k;
                assert(self@[w].0 != *k);
            }
        }
        None
    }

    /// True when a pair with key `*k` is stored.
    pub fn contains_key(&self, k: &K) -> (r: bool)
        requires
            eq_decides::<K>(),
        ensures
            r <==> has_key(self@, *k),
    {
        self.index_of(k).is_some()
    }

    /// The value stored under `*k`, or nothing when the key is absent.
    pub fn get(&self, k: &K) -> (r: Option<&V>)
        requires
            eq_decides::<K>(),
        ensures
            has_key(self@, *k) ==> (r matches Some(v) && value_at(self@, *k) == Some(*v)),
            !has_key(self@, *k) ==> r is None,
    {
        match self.index_of(k) {
            Some(i) => {
                proof {
                    lemma_key_index(self@, *k);
                }
                Some(&self.pairs[i].1)
            },
            None => None,
        }
    }

    /// The stored key and value for `*k`, or nothing when the key is absent.
    pub fn get_key_value(&self, k: &K) -> (r: Option<(&K, &V)>)
        requires
            eq_decides::<K>(),
        ensures
            has_key(self@, *k) ==> (r matches Some(p) && pair_at(self@, *k) == Some(
                (*p.0, *p.1),
            )),
            !has_key(self@, *k) ==> r is None,
    {
        match self.index_of(k) {
            Some(i) => {
                proof {
                    lemma_key_index(self@, *k);
                }
                let p = &self.pairs[i];
                Some((&p.0, &p.1))
            },
            None => None,
        }
    }

    /// Stores `v` under `k`. A pair already stored under `k` is removed
    /// first and its value returned; the new pair is appended at the end, so
    /// writing to a present key moves it to the end of iteration order.
    pub fn insert(&mut self, k: K, v: V) -> (prev: Option<V>)
        requires
            eq_decides::<K>(),
            old(self).wf(),
        ensures
            final(self)@ == upserted(old(self)@, k, v),
            prev == value_at(old(self)@, k),
            final(self).wf(),
    {
        proof {
            lemma_upserted(old(self)@, k, v);
        }
        let prev = match self.index_of(&k) {
            Some(i) => {
                proof {
                    lemma_key_index(self@, k);
                }
                let p = self.pairs.remove(i);
                Some(p.1)
            },
            None => None,
        };
        self.pairs.push((k, v));
        prev
    }

    /// Mutable access to the value stored under `*k`, or nothing when the
    /// key is absent. The keys and the order stay as they are.
    pub fn get_mut(&mut self, k: &K) -> (r: Option<&mut V>)
        requires
            eq_decides::<K>(),
            old(self).wf(),
        ensures
            !has_key(old(self)@, *k) ==> (r is None && final(self)@ == old(self)@),
            has_key(old(self)@, *k) ==> (r matches Some(v) && value_at(old(self)@, *k) == Some(
                *v,
            ) && final(self)@ == old(self)@.update(
                key_index(old(self)@, *k),
                (old(self)@[key_index(old(self)@, *k)].0, *final(v)),
            )),
            final(self).wf(),
    {
        proof {
            lemma_key_index(old(self)@, *k);
        }
        match self.index_of(k) {
            Some(i) => {
                proof {
                    let s = old(self)@;
                    let ki = key_index(s, *k);
                    assert forall|vv: V| unique_keys(s.update(ki, (s[ki].0, vv))) by {
                        let upd = s.update(ki, (s[ki].0, vv));
                        assert(forall|j: int| 0 <= j < s.len() ==> upd[j].0 == s[j].0);
                    }
                }
                Some(&mut self.pairs[i].1)
            },
            None => None,
        }
    }

    /// Removes the pair stored under `*k` and returns its value, or nothing
    /// when the key is absent. The remaining pairs keep their relative
    /// order.
    pub fn remove(&mut self, k: &K) -> (r: Option<V>)
        requires
            eq_decides::<K>(),
            old(self).wf(),
        ensures
            final(self)@ == without_key(old(self)@, *k),
            r == value_at(old(self)@, *k),
            final(self).wf(),
    {
        proof {
            lemma_without_key(old(self)@, *k);
        }
        match self.index_of(k) {
            Some(i) => {
                proof {
                    lemma_key_index(self@, *k);
                }
                let p = self.pairs.remove(i);
                Some(p.1)
            },
            None => None,
        }
    }

    /// Removes the pair stored under `*k` and returns both its key and its
    /// value, or nothing when the key is absent. The remaining pairs keep
    /// their relative order.
    pub fn remove_entry(&mut self, k: &K) -> (r: Option<(K, V)>)
        requires
            eq_decides::<K>(),
            old(self).wf(),
        ensures
            final(self)@ == without_key(old(self)@, *k),
            r == pair_at(old(self)@, *k),
            final(self).wf(),
    {
        proof {
            lemma_without_key(old(self)@, *k);
        }
        match self.index_of(k) {
            Some(i) => {
                proof {
                    lemma_key_index(self@, *k);
                }
                Some(self.pairs.remove(i))
            },
            None => None,
        }
    }
}

// ---------------------------------------------------------------------------
// The entry API: a one-shot cursor from a single lookup.
// ---------------------------------------------------------------------------

/// A cursor into the map obtained by one scan for a key: either the key was
/// found, with the index of its pair, or it was not, and the cursor holds the
/// pending key. While the cursor is alive it has exclusive access to the
/// map, which is what keeps the snapshotted index valid.
pub enum Entry<'a, K, V> {
    Occupied(OccupiedEntry<'a, K, V>),
    Vacant(VacantEntry<'a, K, V>),
}

/// A cursor at the pair with the looked-up key: `table@[index as int]`.
pub struct OccupiedEntry<'a, K, V> {
    pub table: &'a mut VecMap<K, V>,
    pub index: usize,
}

/// A cursor holding a key that the map does not contain.
pub struct VacantEntry<'a, K, V> {
    pub table: &'a mut VecMap<K, V>,
    pub key: K,
}

impl<K: Eq, V> VecMap<K, V> {
    /// Looks `key` up once and returns a cursor: `Occupied` with the index
    /// of the matching pair, or `Vacant` holding the key.
    pub fn entry<'a>(&'a mut self, key: K) -> (e: Entry<'a, K, V>)
        requires
            eq_decides::<K>(),
            old(self).wf(),
        ensures
            has_key(old(self)@, key) ==> (e matches Entry::Occupied(o) && o.table@ == old(self)@
                && o.index < old(self)@.len() && o.index as int == key_index(old(self)@, key)
                && final(o.table)@ == final(self)@),
            !has_key(old(self)@, key) ==> (e matches Entry::Vacant(va) && va.table@ == old(self)@
                && va.key == key && final(va.table)@ == final(self)@),
    {
        match self.index_of(&key) {
            Some(i) => Entry::Occupied(OccupiedEntry { table: self, index: i }),
            None => Entry::Vacant(VacantEntry { table: self, key }),
        }
    }
}

impl<'a, K, V> OccupiedEntry<'a, K, V> {
    /// The key of the pair the cursor points at.
    pub fn key(&self) -> (r: &K)
        requires
            self.index < self.table@.len(),
        ensures
            *r == old(self.table)@[self.index as int].0,
    {
        &self.table.pairs[self.index].0
    }

    /// The value of the pair the cursor points at.
    pub fn get(&self) -> (r: &V)
        requires
            self.index < self.table@.len(),
        ensures
            *r == old(self.table)@[self.index as int].1,
    {
        &self.table.pairs[self.index].1
    }

    /// Mutable access to the value of the pair the cursor points at.
    pub fn get_mut(&mut self) -> (r: &mut V)
        requires
            old(self).index < old(self).table@.len(),
        ensures
            *r == old(self).table@[old(self).index as int].1,
            final(self).index == old(self).index,
            final(self).table@ == old(self).table@.update(
                old(self).index as int,
                (old(self).table@[old(self).index as int].0, *final(r)),
            ),
            final(final(self).table)@ == final(old(self).table)@,
    {
        let i = self.index;
        &mut self.table.pairs[i].1
    }

    /// Consumes the cursor into mutable access to the value, for the rest of
    /// the map borrow.
    pub fn into_mut(self) -> (r: &'a mut V)
        requires
            self.index < self.table@.len(),
        ensures
            *r == old(self.table)@[self.index as int].1,
            final(self.table)@ == old(self.table)@.update(
                self.index as int,
                (old(self.table)@[self.index as int].0, *final(r)),
            ),
    {
        let i = self.index;
        &mut self.table.pairs[i].1
    }

    /// Replaces the stored value, returning the old one. As with
    /// `VecMap::insert`, the pair is removed and re-appended, which moves
    /// the key to the end of iteration order.
    pub fn insert(self, v: V) -> (r: V)
        requires
            self.index < self.table@.len(),
            unique_keys(self.table@),
        ensures
            r == old(self.table)@[self.index as int].1,
            final(self.table)@ == old(self.table)@.remove(self.index as int).push(
                (old(self.table)@[self.index as int].0, v),
            ),
            final(self.table)@ == upserted(
                old(self.table)@,
                old(self.table)@[self.index as int].0,
                v,
            ),
            unique_keys(final(self.table)@),
    {
        proof {
            let s = self.table@;
            let k = s[self.index as int].0;
            lemma_key_index_unique(s, k);
            lemma_upserted(s, k, v);
        }
        let p = self.table.pairs.remove(self.index);
        self.table.pairs.push((p.0, v));
        p.1
    }

    /// Removes the pair by swapping the last pair into its slot: fast, but
    /// the remaining pairs do not keep their relative order.
    pub fn remove(self) -> (r: V)
        requires
            self.index < self.table@.len(),
            unique_keys(self.table@),
        ensures
            r == old(self.table)@[self.index as int].1,
            final(self.table)@ == old(self.table)@.update(
                self.index as int,
                old(self.table)@.last(),
            ).drop_last(),
            unique_keys(final(self.table)@),
            !has_key(final(self.table)@, old(self.table)@[self.index as int].0),
            forall|k2: K|
                k2 != old(self.table)@[self.index as int].0 ==> value_at(final(self.table)@, k2)
                    == value_at(old(self.table)@, k2),
    {
        proof {
            lemma_swap_removed(self.table@, self.index as int);
        }
        self.table.pairs.swap_remove(self.index).1
    }

    /// Removes the pair, shifting the remainder: the remaining pairs keep
    /// their relative order.
    pub fn remove_entry(self) -> (r: (K, V))
        requires
            self.index < self.table@.len(),
            unique_keys(self.table@),
        ensures
            r == old(self.table)@[self.index as int],
            final(self.table)@ == old(self.table)@.remove(self.index as int),
            final(self.table)@ == without_key(
                old(self.table)@,
                old(self.table)@[self.index as int].0,
            ),
            unique_keys(final(self.table)@),
    {
        proof {
            let s = self.table@;
            let k = s[self.index as int].0;
            lemma_key_index_unique(s, k);
            lemma_without_key(s, k);
        }
        self.table.pairs.remove(self.index)
    }
}

impl<'a, K, V> VacantEntry<'a, K, V> {
    /// The key the cursor would insert under.
    pub fn key(&self) -> (r: &K)
        ensures
            *r == self.key,
    {
        &self.key
    }

    /// Consumes the cursor, handing the pending key back; the map is left
    /// unchanged.
    pub fn into_key(self) -> (r: K)
        ensures
            r == self.key,
            final(self.table)@ == old(self.table)@,
    {
        let VacantEntry { table, key } = self;
        key
    }

    /// Appends the pair `(key, v)` at the end of the map and returns mutable
    /// access to the stored value.
    pub fn insert(self, v: V) -> (r: &'a mut V)
        ensures
            *r == v,
            final(self.table)@ == old(self.table)@.push((self.key, *final(r))),
    {
        let VacantEntry { table, key } = self;
        table.pairs.push((key, v));
        let n = table.pairs.len() - 1;
        &mut table.pairs[n].1
    }
}

/// `update(i, (key, x)).drop_last()` of a swap-removal keeps key uniqueness
/// and every other key's value.
proof fn lemma_swap_removed<K, V>(s: Seq<(K, V)>, i: int)
    requires
        unique_keys(s),
        0 <= i < s.len(),
    ensures
        unique_keys(s.update(i, s.last()).drop_last()),
        !has_key(s.update(i, s.last()).drop_last(), s[i].0),
        forall|k2: K|
            k2 != s[i].0 ==> value_at(s.update(i, s.last()).drop_last(), k2) == value_at(s, k2),
        s.update(i, s.last()).drop_last().len() == s.len() - 1,
{
    let t = s.update(i, s.last()).drop_last();
    let n = s.len() as int;
    assert(forall|j: int| 0 <= j < n - 1 && j != i ==> t[j] == s[j]);
    if i < n - 1 {
        assert(t[i] == s[n - 1]);
    }
    assert forall|j: int, l: int| 0 <= j < l < t.len() implies t[j].0 != t[l].0 by {
        let sj = if j == i {
            n - 1
        } else {
            j
        };
        let sl = if l == i {
            n - 1
        } else {
            l
        };
        assert(t[j] == s[sj] && t[l] == s[sl]);
    }
    assert forall|j: int| 0 <= j < t.len() implies t[j].0 != s[i].0 by {
        let sj = if j == i {
            n - 1
        } else {
            j
        };
        assert(t[j] == s[sj]);
        assert(sj != i);
    }
    assert(!has_key(t, s[i].0));
    assert forall|k2: K| k2 != s[i].0 implies value_at(t, k2) == value_at(s, k2) by {
        if has_key(s, k2) {
            let j = choose|j: int| 0 <= j < n && s[j].0 == k2;
            assert(j != i);
            let tj = if j == n - 1 {
                i
            } else {
                j
            };
            assert(t[tj] == s[j]);
            assert(has_key(t, k2));
        }
        if has_key(t, k2) {
            let j = choose|j: int| 0 <= j < t.len() && t[j].0 == k2;
            let sj = if j == i {
                n - 1
            } else {
                j
            };
            assert(t[j] == s[sj]);
            assert(has_key(s, k2));
        }
        if has_key(s, k2) {
            lemma_key_index(s, k2);
            lemma_key_index(t, k2);
            lemma_key_index_unique(s, k2);
            lemma_key_index_unique(t, k2);
            let j = key_index(s, k2);
            assert(j != i);
            let tj = if j == n - 1 {
                i
            } else {
                j
            };
            assert(t[tj] == s[j]);
            assert(key_index(t, k2) == tj);
        }
    }
}

impl<'a, K, V> Entry<'a, K, V> {
    /// Resolves the cursor: mutable access to the stored value when the key
    /// was found, else `default` is inserted under the pending key and the
    /// access points at it.
    pub fn or_insert(self, default: V) -> (r: &'a mut V)
        requires
            self matches Entry::Occupied(o) ==> o.index < o.table@.len(),
        ensures
            self matches Entry::Occupied(o) ==> (*r == o.table@[o.index as int].1
                && final(o.table)@ == o.table@.update(
                o.index as int,
                (o.table@[o.index as int].0, *final(r)),
            )),
            self matches Entry::Vacant(va) ==> (*r == default && final(va.table)@ == va.table@.push(
                (va.key, *final(r)),
            )),
    {
        match self {
            Entry::Occupied(o) => o.into_mut(),
            Entry::Vacant(va) => va.insert(default),
        }
    }

    /// As `or_insert`, with the default produced by `default()` only when it
    /// is needed.
    pub fn or_insert_with<F: FnOnce() -> V>(self, default: F) -> (r: &'a mut V)
        requires
            self matches Entry::Occupied(o) ==> o.index < o.table@.len(),
            self matches Entry::Vacant(va) ==> call_requires(default, ()),
        ensures
            self matches Entry::Occupied(o) ==> (*r == o.table@[o.index as int].1
                && final(o.table)@ == o.table@.update(
                o.index as int,
                (o.table@[o.index as int].0, *final(r)),
            )),
            self matches Entry::Vacant(va) ==> (call_ensures(default, (), *r) && final(va.table)@
                == va.table@.push((va.key, *final(r)))),
    {
        match self {
            Entry::Occupied(o) => o.into_mut(),
            Entry::Vacant(va) => {
                let v = default();
                va.insert(v)
            },
        }
    }

    /// As `or_insert_with`, handing the pending key to the producer.
    pub fn or_insert_with_key<F: FnOnce(&K) -> V>(self, default: F) -> (r: &'a mut V)
        requires
            self matches Entry::Occupied(o) ==> o.index < o.table@.len(),
            self matches Entry::Vacant(va) ==> call_requires(default, (&va.key,)),
        ensures
            self matches Entry::Occupied(o) ==> (*r == o.table@[o.index as int].1
                && final(o.table)@ == o.table@.update(
                o.index as int,
                (o.table@[o.index as int].0, *final(r)),
            )),
            self matches Entry::Vacant(va) ==> (call_ensures(default, (&va.key,), *r)
                && final(va.table)@ == va.table@.push((va.key, *final(r)))),
    {
        match self {
            Entry::Occupied(o) => o.into_mut(),
            Entry::Vacant(va) => {
                let v = default(&va.key);
                va.insert(v)
            },
        }
    }

    /// If the cursor is occupied, applies `f` to the stored value in place
    /// and returns the cursor unchanged in kind; a vacant cursor is returned
    /// as it is.
    pub fn and_modify<F: FnOnce(&mut V)>(self, f: F) -> (e: Entry<'a, K, V>)
        requires
            self matches Entry::Occupied(o) ==> o.index < o.table@.len() && (forall|m: &mut V|
                *m == o.table@[o.index as int].1 ==> call_requires(f, (m,))),
        ensures
            self matches Entry::Vacant(va) ==> (e matches Entry::Vacant(va2) && va2.key == va.key
                && va2.table@ == va.table@ && final(va2.table)@ == final(va.table)@),
            self matches Entry::Occupied(o) ==> (e matches Entry::Occupied(o2) && o2.index
                == o.index && final(o2.table)@ == final(o.table)@ && (exists|m: &mut V|
                {
                    &&& #[trigger] call_ensures(f, (m,), ())
                    &&& *m == o.table@[o.index as int].1
                    &&& o2.table@ == o.table@.update(
                        o.index as int,
                        (o.table@[o.index as int].0, *final(m)),
                    )
                })),
    {
        match self {
            Entry::Occupied(o) => {
                let OccupiedEntry { table, index } = o;
                let slot: &mut V = &mut table.pairs[index].1;
                f(slot);
                Entry::Occupied(OccupiedEntry { table, index })
            },
            Entry::Vacant(va) => Entry::Vacant(va),
        }
    }
}

// ---------------------------------------------------------------------------
// Iteration, in the order of the backing sequence.
// ---------------------------------------------------------------------------

/// A cursor over the pairs of a borrowed map, front to back.
pub struct Iter<'a, K, V> {
    pub base: &'a VecMap<K, V>,
    pub pos: usize,
}

/// A cursor over the keys of a borrowed map, front to back.
pub struct Keys<'a, K, V> {
    pub base: &'a VecMap<K, V>,
    pub pos: usize,
}

/// A cursor over the values of a borrowed map, front to back.
pub struct Values<'a, K, V> {
    pub base: &'a VecMap<K, V>,
    pub pos: usize,
}

/// A cursor that hands the drained pairs out, front to back; the map itself
/// is already empty.
pub struct Drain<K, V> {
    pub taken: Vec<(K, V)>,
}

/// A cursor that hands the pairs of a consumed map out, front to back.
pub struct IntoIter<K, V> {
    pub taken: Vec<(K, V)>,
}

impl<'a, K, V> Iter<'a, K, V> {
    /// The next pair, or nothing once all pairs are out.
    pub fn next(&mut self) -> (r: Option<(&'a K, &'a V)>)
        ensures
            old(self).pos < old(self).base@.len() ==> (r matches Some(p) && *p.0 == old(
                self,
            ).base@[old(self).pos as int].0 && *p.1 == old(self).base@[old(self).pos as int].1
                && final(self).pos == old(self).pos + 1),
            old(self).pos >= old(self).base@.len() ==> (r is None && final(self).pos == old(
                self,
            ).pos),
            final(self).base == old(self).base,
    {
        if self.pos < self.base.pairs.len() {
            let p = &self.base.pairs[self.pos];
            self.pos = self.pos + 1;
            Some((&p.0, &p.1))
        } else {
            None
        }
    }

    /// How many pairs are still to come.
    pub fn len(&self) -> (r: usize)
        ensures
            r == if self.pos <= self.base@.len() {
                self.base@.len() - self.pos
            } else {
                0int
            },
    {
        let n = self.base.pairs.len();
        if self.pos <= n {
            n - self.pos
        } else {
            0
        }
    }

    /// Lower and upper bound on the pairs still to come; both are exact.
    pub fn size_hint(&self) -> (r: (usize, Option<usize>))
        ensures
            r.0 == if self.pos <= self.base@.len() {
                self.base@.len() - self.pos
            } else {
                0int
            },
            r.1 == Some(r.0),
    {
        let n = self.len();
        (n, Some(n))
    }
}

impl<'a, K, V> Keys<'a, K, V> {
    /// The next key, or nothing once all keys are out.
    pub fn next(&mut self) -> (r: Option<&'a K>)
        ensures
            old(self).pos < old(self).base@.len() ==> (r matches Some(k) && *k == old(
                self,
            ).base@[old(self).pos as int].0 && final(self).pos == old(self).pos + 1),
            old(self).pos >= old(self).base@.len() ==> (r is None && final(self).pos == old(
                self,
            ).pos),
            final(self).base == old(self).base,
    {
        if self.pos < self.base.pairs.len() {
            let p = &self.base.pairs[self.pos];
            self.pos = self.pos + 1;
            Some(&p.0)
        } else {
            None
        }
    }
}

impl<'a, K, V> Values<'a, K, V> {
    /// The next value, or nothing once all values are out.
    pub fn next(&mut self) -> (r: Option<&'a V>)
        ensures
            old(self).pos < old(self).base@.len() ==> (r matches Some(v) && *v == old(
                self,
            ).base@[old(self).pos as int].1 && final(self).pos == old(self).pos + 1),
            old(self).pos >= old(self).base@.len() ==> (r is None && final(self).pos == old(
                self,
            ).pos),
            final(self).base == old(self).base,
    {
        if self.pos < self.base.pairs.len() {
            let p = &self.base.pairs[self.pos];
            self.pos = self.pos + 1;
            Some(&p.1)
        } else {
            None
        }
    }
}

impl<K, V> Drain<K, V> {
    /// The next drained pair, or nothing once all pairs are out.
    pub fn next(&mut self) -> (r: Option<(K, V)>)
        ensures
            old(self).taken@.len() > 0 ==> (r == Some(old(self).taken@[0]) && final(self).taken@
                == old(self).taken@.drop_first()),
            old(self).taken@.len() == 0 ==> (r is None && final(self).taken@ == old(
                self,
            ).taken@),
    {
        if self.taken.len() > 0 {
            Some(self.taken.remove(0))
        } else {
            None
        }
    }
}

impl<K, V> IntoIter<K, V> {
    /// The next pair of the consumed map, or nothing once all pairs are out.
    pub fn next(&mut self) -> (r: Option<(K, V)>)
        ensures
            old(self).taken@.len() > 0 ==> (r == Some(old(self).taken@[0]) && final(self).taken@
                == old(self).taken@.drop_first()),
            old(self).taken@.len() == 0 ==> (r is None && final(self).taken@ == old(
                self,
            ).taken@),
    {
        if self.taken.len() > 0 {
            Some(self.taken.remove(0))
        } else {
            None
        }
    }

    /// How many pairs are still to come.
    pub fn len(&self) -> (r: usize)
        ensures
            r == self.taken@.len(),
    {
        self.taken.len()
    }
}

impl<K, V> VecMap<K, V> {
    /// A cursor over the stored pairs, in sequence order.
    pub fn iter(&self) -> (r: Iter<'_, K, V>)
        ensures
            r.base == self,
            r.pos == 0,
    {
        Iter { base: self, pos: 0 }
    }

    /// A cursor over the stored keys, in sequence order.
    pub fn keys(&self) -> (r: Keys<'_, K, V>)
        ensures
            r.base == self,
            r.pos == 0,
    {
        Keys { base: self, pos: 0 }
    }

    /// A cursor over the stored values, in sequence order.
    pub fn values(&self) -> (r: Values<'_, K, V>)
        ensures
            r.base == self,
            r.pos == 0,
    {
        Values { base: self, pos: 0 }
    }

    /// Empties the map and hands the removed pairs out through a cursor.
    pub fn drain(&mut self) -> (r: Drain<K, V>)
        ensures
            final(self)@ == Seq::<(K, V)>::empty(),
            final(self).wf(),
            r.taken@ == old(self)@,
    {
        let mut taken: Vec<(K, V)> = Vec::new();
        core::mem::swap(&mut self.pairs, &mut taken);
        Drain { taken }
    }

    /// Consumes the map into a cursor over its pairs.
    pub fn into_iter(self) -> (r: IntoIter<K, V>)
        ensures
            r.taken@ == self@,
    {
        IntoIter { taken: self.pairs }
    }

    /// Consumes the map into the sequence of its keys, in sequence order.
    pub fn into_keys(self) -> (r: Vec<K>)
        ensures
            r@.len() == self@.len(),
            forall|i: int| 0 <= i < r@.len() ==> r@[i] == self@[i].0,
    {
        let ghost orig = self.pairs@;
        let mut source = self.pairs;
        let mut out: Vec<K> = Vec::new();
        while source.len() > 0
            invariant
                out@.len() + source@.len() == orig.len(),
                forall|i: int| 0 <= i < source@.len() ==> source@[i] == orig[out@.len() + i],
                forall|i: int| 0 <= i < out@.len() ==> out@[i] == orig[i].0,
            decreases source@.len(),
        {
            let p = source.remove(0);
            out.push(p.0);
        }
        out
    }

    /// Consumes the map into the sequence of its values, in sequence order.
    pub fn into_values(self) -> (r: Vec<V>)
        ensures
            r@.len() == self@.len(),
            forall|i: int| 0 <= i < r@.len() ==> r@[i] == self@[i].1,
    {
        let ghost orig = self.pairs@;
        let mut source = self.pairs;
        let mut out: Vec<V> = Vec::new();
        while source.len() > 0
            invariant
                out@.len() + source@.len() == orig.len(),
                forall|i: int| 0 <= i < source@.len() ==> source@[i] == orig[out@.len() + i],
                forall|i: int| 0 <= i < out@.len() ==> out@[i] == orig[i].1,
            decreases source@.len(),
        {
            let p = source.remove(0);
            out.push(p.1);
        }
        out
    }
}

impl<K: Eq, V> VecMap<K, V> {
    /// The value stored under `*k`. The key must be present: indexing a
    /// missing key is a programmer error, unlike `get`, which reports
    /// absence.
    pub fn index(&self, k: &K) -> (r: &V)
        requires
            eq_decides::<K>(),
            has_key(self@, *k),
        ensures
            value_at(self@, *k) == Some(*r),
    {
        match self.get(k) {
            Some(v) => v,
            None => vstd::pervasive::unreached(),
        }
    }
}

// ---------------------------------------------------------------------------
// Mutable iteration: the map is split once into one mutable slot per value;
// the cursors hand the slots out front to back.
// ---------------------------------------------------------------------------

/// A cursor over mutable access to the stored values, front to back. Keys
/// cannot be touched through it, so the order and the key set stay as they
/// are.
pub struct ValuesMut<'a, V> {
    pub slots: Vec<&'a mut V>,
}

/// A cursor over the stored keys paired with mutable access to their values,
/// front to back.
pub struct IterMut<'a, K, V> {
    pub slots: Vec<(&'a K, &'a mut V)>,
}

impl<'a, V> ValuesMut<'a, V> {
    /// Mutable access to the next value, or nothing once all are out.
    pub fn next(&mut self) -> (r: Option<&'a mut V>)
        ensures
            old(self).slots@.len() > 0 ==> (r == Some(old(self).slots@[0]) && final(self).slots@
                == old(self).slots@.drop_first()),
            old(self).slots@.len() == 0 ==> (r is None && final(self).slots@ == old(
                self,
            ).slots@),
    {
        if self.slots.len() > 0 {
            Some(self.slots.remove(0))
        } else {
            None
        }
    }

    /// How many values are still to come.
    pub fn len(&self) -> (r: usize)
        ensures
            r == self.slots@.len(),
    {
        self.slots.len()
    }

    /// Lower and upper bound on the values still to come; both are exact.
    pub fn size_hint(&self) -> (r: (usize, Option<usize>))
        ensures
            r.0 == self.slots@.len(),
            r.1 == Some(r.0),
    {
        let n = self.slots.len();
        (n, Some(n))
    }
}

impl<'a, K, V> IterMut<'a, K, V> {
    /// The next key with mutable access to its value, or nothing once all
    /// are out.
    pub fn next(&mut self) -> (r: Option<(&'a K, &'a mut V)>)
        ensures
            old(self).slots@.len() > 0 ==> (r == Some(old(self).slots@[0]) && final(self).slots@
                == old(self).slots@.drop_first()),
            old(self).slots@.len() == 0 ==> (r is None && final(self).slots@ == old(
                self,
            ).slots@),
    {
        if self.slots.len() > 0 {
            Some(self.slots.remove(0))
        } else {
            None
        }
    }

    /// How many pairs are still to come.
    pub fn len(&self) -> (r: usize)
        ensures
            r == self.slots@.len(),
    {
        self.slots.len()
    }

    /// Lower and upper bound on the pairs still to come; both are exact.
    pub fn size_hint(&self) -> (r: (usize, Option<usize>))
        ensures
            r.0 == self.slots@.len(),
            r.1 == Some(r.0),
    {
        let n = self.slots.len();
        (n, Some(n))
    }
}

/// One mutable slot per value of the slice, in order.
fn slice_values_mut<'a, K, V>(rem: &'a mut [(K, V)]) -> (r: Vec<&'a mut V>)
    ensures
        r@.len() == old(rem)@.len(),
        forall|i: int| 0 <= i < r@.len() ==> *r@[i] == old(rem)@[i].1,
        final(rem)@.len() == old(rem)@.len(),
        forall|i: int|
            0 <= i < final(rem)@.len() ==> final(rem)@[i] == (old(rem)@[i].0, *final(r@[i])),
    decreases old(rem)@.len(),
{
    if rem.len() == 0 {
        Vec::new()
    } else {
        let (head, rest) = <[(K, V)]>::split_at_mut(rem, 1);
        let pair: &mut (K, V) = &mut head[0];
        let first: &mut V = &mut pair.1;
        let mut r2 = slice_values_mut(rest);
        r2.insert(0, first);
        r2
    }
}

/// One key reference and one mutable value slot per pair of the slice, in
/// order.
fn slice_pairs_mut<'a, K, V>(rem: &'a mut [(K, V)]) -> (r: Vec<(&'a K, &'a mut V)>)
    ensures
        r@.len() == old(rem)@.len(),
        forall|i: int|
            0 <= i < r@.len() ==> *r@[i].0 == old(rem)@[i].0 && *r@[i].1 == old(rem)@[i].1,
        final(rem)@.len() == old(rem)@.len(),
        forall|i: int|
            0 <= i < final(rem)@.len() ==> final(rem)@[i] == (old(rem)@[i].0, *final(r@[i].1)),
    decreases old(rem)@.len(),
{
    if rem.len() == 0 {
        Vec::new()
    } else {
        let (head, rest) = <[(K, V)]>::split_at_mut(rem, 1);
        let pair: &mut (K, V) = &mut head[0];
        let kr: &K = &pair.0;
        let vr: &mut V = &mut pair.1;
        let mut r2 = slice_pairs_mut(rest);
        r2.insert(0, (kr, vr));
        r2
    }
}

impl<K, V> VecMap<K, V> {
    /// A cursor with mutable access to every stored value, in sequence
    /// order. The keys and the order stay as they are.
    pub fn values_mut(&mut self) -> (r: ValuesMut<'_, V>)
        ensures
            r.slots@.len() == old(self)@.len(),
            forall|i: int| 0 <= i < r.slots@.len() ==> *r.slots@[i] == old(self)@[i].1,
            final(self)@.len() == old(self)@.len(),
            forall|i: int|
                0 <= i < final(self)@.len() ==> final(self)@[i] == (
                    old(self)@[i].0,
                    *final(r.slots@[i]),
                ),
            old(self).wf() ==> final(self).wf(),
    {
        ValuesMut { slots: slice_values_mut(self.pairs.as_mut_slice()) }
    }

    /// A cursor over every stored key with mutable access to its value, in
    /// sequence order. The keys and the order stay as they are.
    pub fn iter_mut(&mut self) -> (r: IterMut<'_, K, V>)
        ensures
            r.slots@.len() == old(self)@.len(),
            forall|i: int|
                0 <= i < r.slots@.len() ==> *r.slots@[i].0 == old(self)@[i].0 && *r.slots@[i].1
                    == old(self)@[i].1,
            final(self)@.len() == old(self)@.len(),
            forall|i: int|
                0 <= i < final(self)@.len() ==> final(self)@[i] == (
                    old(self)@[i].0,
                    *final(r.slots@[i].1),
                ),
            old(self).wf() ==> final(self).wf(),
    {
        IterMut { slots: slice_pairs_mut(self.pairs.as_mut_slice()) }
    }
}

// ---------------------------------------------------------------------------
// Bulk operations: building from a list of pairs, merging another map in,
// and filtering in place.
// ---------------------------------------------------------------------------

/// The pairs of `t` written into `s` front to back, each by an upsert.
pub open spec fn upserted_all<K, V>(s: Seq<(K, V)>, t: Seq<(K, V)>) -> Seq<(K, V)>
    decreases t.len(),
{
    if t.len() == 0 {
        s
    } else {
        upserted(upserted_all(s, t.drop_last()), t.last().0, t.last().1)
    }
}

/// A mask selects a subsequence: every selected key was present, and key
/// uniqueness survives.
pub proof fn lemma_masked_wf<K, V>(s: Seq<(K, V)>, keep: Seq<bool>)
    requires
        unique_keys(s),
    ensures
        unique_keys(masked(s, keep)),
        forall|k: K| has_key(masked(s, keep), k) ==> has_key(s, k),
    decreases s.len(),
{
    if s.len() > 0 {
        let d = s.drop_last();
        assert(unique_keys(d)) by {
            assert(forall|i: int| 0 <= i < d.len() ==> d[i] == s[i]);
        }
        lemma_masked_wf(d, keep.drop_last());
        assert(forall|i: int| 0 <= i < d.len() ==> d[i] == s[i]);
        assert forall|k: K| has_key(masked(s, keep), k) implies has_key(s, k) by {
            let m = masked(s, keep);
            let i = choose|i: int| 0 <= i < m.len() && m[i].0 == k;
            if keep.len() == s.len() && keep.last() && i == m.len() - 1 {
                assert(m[i] == s.last());
            } else {
                assert(m[i] == masked(d, keep.drop_last())[i]);
                assert(has_key(d, k));
                let j = choose|j: int| 0 <= j < d.len() && d[j].0 == k;
                assert(s[j].0 == k);
            }
        }
        if keep.len() == s.len() && keep.last() {
            let m0 = masked(d, keep.drop_last());
            assert forall|i: int, j: int|
                0 <= i < j < masked(s, keep).len() implies masked(s, keep)[i].0 != masked(
                s,
                keep,
            )[j].0 by {
                if j == masked(s, keep).len() - 1 {
                    assert(masked(s, keep)[i] == m0[i]);
                    if masked(s, keep)[i].0 == s.last().0 {
                        assert(has_key(m0, m0[i].0));
                        assert(has_key(d, m0[i].0));
                        let l = choose|l: int| 0 <= l < d.len() && d[l].0 == m0[i].0;
                        assert(s[l].0 == s[s.len() - 1].0);
                    }
                }
            }
        }
    }
}

impl<K: Eq, V> VecMap<K, V> {
    /// Builds a map by writing the listed pairs into an empty map, front to
    /// back: of pairs sharing a key the last one wins, and each repeated
    /// write moves its key to the end of the order, as `insert` does.
    pub fn from_vec(list: Vec<(K, V)>) -> (r: Self)
        requires
            eq_decides::<K>(),
        ensures
            r@ == upserted_all(Seq::<(K, V)>::empty(), list@),
            r.wf(),
    {
        let ghost all = list@;
        let mut source = list;
        let mut m = VecMap::new();
        proof {
            assert(all.take(0) =~= Seq::<(K, V)>::empty());
        }
        while source.len() > 0
            invariant
                eq_decides::<K>(),
                source@.len() <= all.len(),
                forall|i: int|
                    0 <= i < source@.len() ==> source@[i] == all[all.len() - source@.len() + i],
                m@ == upserted_all(Seq::<(K, V)>::empty(), all.take(all.len() - source@.len())),
                m.wf(),
            decreases source@.len(),
        {
            let ghost done = all.len() - source@.len();
            let p = source.remove(0);
            m.insert(p.0, p.1);
            proof {
                let t = all.take(done + 1);
                assert(t.drop_last() =~= all.take(done));
                assert(t.last() == all[done]);
            }
        }
        proof {
            assert(all.take(all.len() as int) =~= all);
        }
        m
    }
}

impl<K: Eq + Copy, V: Copy> VecMap<K, V> {
    /// Writes every pair of `other` into `self`, front to back, each by an
    /// upsert: shared keys take `other`'s value and move to the end of the
    /// order.
    pub fn extend(&mut self, other: &VecMap<K, V>)
        requires
            eq_decides::<K>(),
            old(self).wf(),
        ensures
            final(self)@ == upserted_all(old(self)@, other@),
            final(self).wf(),
    {
        let n = other.pairs.len();
        let mut i: usize = 0;
        proof {
            assert(other@.take(0) =~= Seq::<(K, V)>::empty());
        }
        while i < n
            invariant
                eq_decides::<K>(),
                n == other@.len(),
                i <= n,
                self@ == upserted_all(old(self)@, other@.take(i as int)),
                self.wf(),
            decreases n - i,
        {
            let (k, v) = other.pairs[i];
            self.insert(k, v);
            i += 1;
            proof {
                let t = other@.take(i as int);
                assert(t.drop_last() =~= other@.take(i - 1));
                assert(t.last() == other@[i - 1]);
            }
        }
        proof {
            assert(other@.take(n as int) =~= other@);
        }
    }
}

impl<K: Eq, V> VecMap<K, V> {
    /// Keeps exactly the pairs for which `f` answers true, in their relative
    /// order, in one pass.
    pub fn retain<F: Fn(&K, &V) -> bool>(&mut self, f: F)
        requires
            old(self).wf(),
            forall|i: int|
                0 <= i < old(self)@.len() ==> call_requires(
                    f,
                    (&old(self)@[i].0, &old(self)@[i].1),
                ),
        ensures
            exists|keep: Seq<bool>|
                {
                    &&& keep.len() == old(self)@.len()
                    &&& (forall|i: int|
                        #![trigger keep[i]]
                        0 <= i < keep.len() ==> call_ensures(
                            f,
                            (&old(self)@[i].0, &old(self)@[i].1),
                            keep[i],
                        ))
                    &&& final(self)@ == masked(old(self)@, keep)
                },
            final(self).wf(),
    {
        let ghost all = old(self)@;
        let mut source: Vec<(K, V)> = Vec::new();
        core::mem::swap(&mut self.pairs, &mut source);
        let ghost mut keep = Seq::<bool>::empty();
        proof {
            assert(all.take(0) =~= Seq::<(K, V)>::empty());
            assert(masked(all.take(0), keep) =~= Seq::<(K, V)>::empty());
        }
        while source.len() > 0
            invariant
                source@.len() <= all.len(),
                forall|i: int|
                    0 <= i < source@.len() ==> source@[i] == all[all.len() - source@.len() + i],
                keep.len() == all.len() - source@.len(),
                forall|i: int|
                    #![trigger keep[i]]
                    0 <= i < keep.len() ==> call_ensures(f, (&all[i].0, &all[i].1), keep[i]),
                self.pairs@ == masked(all.take(keep.len() as int), keep),
                forall|i: int|
                    0 <= i < all.len() ==> call_requires(f, (&all[i].0, &all[i].1)),
            decreases source@.len(),
        {
            let ghost done = keep.len() as int;
            let p = source.remove(0);
            assert(all[done] == p);
            let kr = &p.0;
            let vr = &p.1;
            let b = f(kr, vr);
            proof {
                let kprev = keep;
                keep = keep.push(b);
                assert(*kr == all[done].0 && *vr == all[done].1);
                assert(call_ensures(f, (&all[done].0, &all[done].1), keep[done]));
                let t = all.take(done + 1);
                assert(t.drop_last() =~= all.take(done));
                assert(t.last() == all[done]);
                assert(keep.drop_last() =~= kprev);
                assert(forall|i: int| 0 <= i < kprev.len() ==> keep[i] == kprev[i]);
            }
            if b {
                self.pairs.push(p);
            }
        }
        proof {
            assert(all.take(all.len() as int) =~= all);
            lemma_masked_wf(all, keep);
            assert(keep.len() == all.len() && self.pairs@ == masked(all, keep));
        }
    }
}

impl<'a, K, V: Default> Entry<'a, K, V> {
    /// Resolves the cursor as `or_insert` does, with `V::default()` as the
    /// value inserted when the key was absent.
    pub fn or_default(self) -> (r: &'a mut V)
        requires
            self matches Entry::Occupied(o) ==> o.index < o.table@.len(),
        ensures
            self matches Entry::Occupied(o) ==> (*r == o.table@[o.index as int].1
                && final(o.table)@ == o.table@.update(
                o.index as int,
                (o.table@[o.index as int].0, *final(r)),
            )),
            self matches Entry::Vacant(va) ==> (call_ensures(V::default, (), *r)
                && final(va.table)@ == va.table@.push((va.key, *final(r)))),
    {
        match self {
            Entry::Occupied(o) => o.into_mut(),
            Entry::Vacant(va) => va.insert(V::default()),
        }
    }
}

impl<K, V> Default for VecMap<K, V> {
    /// An empty map.
    fn default() -> (r: Self)
        ensures
            r@ == Seq::<(K, V)>::empty(),
            r.wf(),
    {
        VecMap::new()
    }
}

// ---------------------------------------------------------------------------
// Equality: two maps are equal when each stores every pair of the other,
// whatever the order. Checked in both directions; with unique keys the
// double containment already forces equal sizes.
// ---------------------------------------------------------------------------

impl<K: Eq, V: PartialEq> VecMap<K, V> {
    /// One direction of the containment check: every pair of `self` is found
    /// in `other` with the same value.
    fn submap_check(&self, other: &Self) -> (r: bool)
        ensures
            eq_decides::<K>() && eq_decides::<V>() ==> (r <==> submap_of(self@, other@)),
    {
        let n = self.pairs.len();
        let mut i: usize = 0;
        while i < n
            invariant
                n == self.pairs@.len(),
                i <= n,
                eq_decides::<K>() && eq_decides::<V>() ==> forall|j: int|
                    0 <= j < i ==> value_at(other@, self@[j].0) == Some(self@[j].1),
            decreases n - i,
        {
            let p = &self.pairs[i];
            match other.index_of(&p.0) {
                Some(j) => {
                    proof {
                        if eq_decides::<K>() {
                            lemma_key_index(other@, self@[i as int].0);
                        }
                    }
                    if !(&other.pairs[j].1 == &p.1) {
                        return false;
                    }
                },
                None => {
                    return false;
                },
            }
            i += 1;
        }
        true
    }
}

impl<K: Eq, V: PartialEq> PartialEq for VecMap<K, V> {
    fn eq(&self, other: &Self) -> (r: bool) {
        self.submap_check(other) && other.submap_check(self)
    }
}

impl<K: Eq, V: PartialEq> vstd::std_specs::cmp::PartialEqSpecImpl for VecMap<K, V> {
    open spec fn obeys_eq_spec() -> bool {
        eq_decides::<K>() && eq_decides::<V>()
    }

    open spec fn eq_spec(&self, other: &Self) -> bool {
        same_entries(self@, other@)
    }
}

/// The stored pairs are exactly the entries of the mathematical map `m`:
/// as many pairs as `m` has keys, each pair a binding of `m`.
pub open spec fn matches_key_map<K, V>(s: Seq<(K, V)>, m: Map<K, V>) -> bool {
    &&& s.len() == m.len()
    &&& forall|i: int| 0 <= i < s.len() ==> m.contains_key(#[trigger] s[i].0) && m[s[i].0] == s[i].1
}

impl<K: Eq + std::hash::Hash, V: PartialEq, S: std::hash::BuildHasher> PartialEq<
    std::collections::HashMap<K, V, S>,
> for VecMap<K, V> {
    fn eq(&self, other: &std::collections::HashMap<K, V, S>) -> (r: bool) {
        broadcast use vstd::std_specs::hash::axiom_spec_hash_map_len;
        broadcast use vstd::std_specs::hash::axiom_contains_deref_key;
        broadcast use vstd::std_specs::hash::axiom_maps_deref_key_to_value;

        if self.pairs.len() != other.len() {
            return false;
        }
        let n = self.pairs.len();
        let mut i: usize = 0;
        while i < n
            invariant
                n == self.pairs@.len(),
                i <= n,
                n == vstd::std_specs::hash::spec_hash_map_len(other),
                (vstd::std_specs::hash::obeys_key_model::<K>()
                    && vstd::std_specs::hash::builds_valid_hashers::<S>() && eq_decides::<V>())
                    ==> forall|j: int|
                    0 <= j < i ==> other@.contains_key(#[trigger] self.pairs@[j].0)
                        && other@[self.pairs@[j].0] == self.pairs@[j].1,
            decreases n - i,
        {
            broadcast use vstd::std_specs::hash::axiom_spec_hash_map_len;
            broadcast use vstd::std_specs::hash::axiom_contains_deref_key;
            broadcast use vstd::std_specs::hash::axiom_maps_deref_key_to_value;

            let p = &self.pairs[i];
            match other.get(&p.0) {
                Some(w) => {
                    if !(w == &p.1) {
                        return false;
                    }
                },
                None => {
                    return false;
                },
            }
            i += 1;
        }
        true
    }
}

impl<K: Eq + std::hash::Hash, V: PartialEq, S: std::hash::BuildHasher> vstd::std_specs::cmp::PartialEqSpecImpl<
    std::collections::HashMap<K, V, S>,
> for VecMap<K, V> {
    open spec fn obeys_eq_spec() -> bool {
        &&& eq_decides::<V>()
        &&& vstd::std_specs::hash::obeys_key_model::<K>()
        &&& vstd::std_specs::hash::builds_valid_hashers::<S>()
    }

    open spec fn eq_spec(&self, other: &std::collections::HashMap<K, V, S>) -> bool {
        matches_key_map(self@, other@)
    }
}

// ---------------------------------------------------------------------------
// Laws of the model. Each is stated over the sequences that the contracts
// above speak of.
// ---------------------------------------------------------------------------

/// Resolving a vacant cursor with `or_insert(v)` (or `VacantEntry::insert`)
/// appends `(k, v)`: afterwards the lookup of `k` yields `v` and the map has
/// grown by exactly one pair, still with unique keys.
pub proof fn lemma_vacant_insert_round_trip<K, V>(s: Seq<(K, V)>, k: K, v: V)
    requires
        unique_keys(s),
        !has_key(s, k),
    ensures
        value_at(s.push((k, v)), k) == Some(v),
        s.push((k, v)).len() == s.len() + 1,
        unique_keys(s.push((k, v))),
{
    assert(without_key(s, k) == s);
    lemma_upserted(s, k, v);
}

/// Writing a pair that is already stored leaves the length and every lookup
/// unchanged; only the order of the backing sequence may shift.
pub proof fn lemma_reinsert_identical<K, V>(s: Seq<(K, V)>, k: K, v: V)
    requires
        unique_keys(s),
        value_at(s, k) == Some(v),
    ensures
        upserted(s, k, v).len() == s.len(),
        forall|k2: K| value_at(upserted(s, k, v), k2) == value_at(s, k2),
{
    lemma_upserted(s, k, v);
    assert(has_key(s, k));
    assert forall|k2: K| value_at(upserted(s, k, v), k2) == value_at(s, k2) by {
        if k2 == k {
            assert(value_at(upserted(s, k, v), k) == Some(v));
        }
    }
}

/// Map equality is reflexive on well-formed maps.
pub proof fn lemma_same_entries_reflexive<K, V>(s: Seq<(K, V)>)
    requires
        unique_keys(s),
    ensures
        same_entries(s, s),
{
    assert forall|i: int| 0 <= i < s.len() implies value_at(s, s[i].0) == Some(s[i].1) by {
        lemma_key_index_unique(s, s[i].0);
        assert(has_key(s, s[i].0));
    }
}

/// Map equality is symmetric.
pub proof fn lemma_same_entries_symmetric<K, V>(a: Seq<(K, V)>, b: Seq<(K, V)>)
    ensures
        same_entries(a, b) == same_entries(b, a),
{
}

/// With unique keys the double containment already forces equal sizes: two
/// equal maps hold the same number of pairs, with no separate length check.
pub proof fn lemma_same_entries_same_len<K, V>(a: Seq<(K, V)>, b: Seq<(K, V)>)
    requires
        unique_keys(a),
        unique_keys(b),
        same_entries(a, b),
    ensures
        a.len() == b.len(),
{
    lemma_equality_is_order_independent(a, b);
    assert(a.no_duplicates()) by {
        assert forall|i: int, j: int| 0 <= i < j < a.len() implies a[i] != a[j] by {
            assert(a[i].0 != a[j].0);
        }
    }
    assert(b.no_duplicates()) by {
        assert forall|i: int, j: int| 0 <= i < j < b.len() implies b[i] != b[j] by {
            assert(b[i].0 != b[j].0);
        }
    }
    a.unique_seq_to_set();
    b.unique_seq_to_set();
}

/// Two well-formed maps are equal exactly when they hold the same set of
/// pairs: the order in which the pairs were written does not matter.
pub proof fn lemma_equality_is_order_independent<K, V>(a: Seq<(K, V)>, b: Seq<(K, V)>)
    requires
        unique_keys(a),
        unique_keys(b),
    ensures
        same_entries(a, b) <==> a.to_set() == b.to_set(),
{
    if same_entries(a, b) {
        assert forall|p: (K, V)| a.to_set().contains(p) implies b.to_set().contains(p) by {
            let i = choose|i: int| 0 <= i < a.len() && a[i] == p;
            assert(value_at(b, p.0) == Some(p.1));
            lemma_lookup_is_containment(b, p.0, p.1);
        }
        assert forall|p: (K, V)| b.to_set().contains(p) implies a.to_set().contains(p) by {
            let i = choose|i: int| 0 <= i < b.len() && b[i] == p;
            assert(value_at(a, p.0) == Some(p.1));
            lemma_lookup_is_containment(a, p.0, p.1);
        }
        assert(a.to_set() =~= b.to_set());
    }
    if a.to_set() == b.to_set() {
        assert forall|i: int| 0 <= i < a.len() implies value_at(b, a[i].0) == Some(a[i].1) by {
            assert(a.contains(a[i]));
            assert(b.to_set().contains(a[i]));
            lemma_lookup_is_containment(b, a[i].0, a[i].1);
        }
        assert forall|i: int| 0 <= i < b.len() implies value_at(a, b[i].0) == Some(b[i].1) by {
            assert(b.contains(b[i]));
            assert(a.to_set().contains(b[i]));
            lemma_lookup_is_containment(a, b[i].0, b[i].1);
        }
    }
}

} // verus!
