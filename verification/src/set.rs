//! `VecSet`: a set of unique elements over a growable sequence, searched by
//! linear scan.
//!
//! The backing sequence holds each element at most once, in insertion order.
//! `insert` of an element already present is a no-op; `replace` removes the
//! old equal element and appends the new one, moving it to the end of the
//! order. The set-algebra views (difference, intersection, union, symmetric
//! difference) are lazy cursors over two borrowed sets, built from nothing
//! but `contains` and the element cursor.
use vstd::prelude::*;

verus! {

use crate::eq_decides;
use crate::masked;

// ---------------------------------------------------------------------------
// The model: a set is a sequence without duplicates.
// ---------------------------------------------------------------------------

/// Index of the first element equal to `x`; the length when `x` is absent.
pub open spec fn elem_index<T>(s: Seq<T>, x: T) -> int
    decreases s.len(),
{
    if s.len() == 0 {
        0
    } else if s[0] == x {
        0
    } else {
        1 + elem_index(s.drop_first(), x)
    }
}

/// The sequence with the element equal to `x` (if any) taken out, order kept.
pub open spec fn without_elem<T>(s: Seq<T>, x: T) -> Seq<T> {
    if s.contains(x) {
        s.remove(elem_index(s, x))
    } else {
        s
    }
}

/// Every element of `a` is an element of `b`.
pub open spec fn all_in<T>(a: Seq<T>, b: Seq<T>) -> bool {
    forall|i: int| 0 <= i < a.len() ==> b.contains(a[i])
}

/// The elements of `a` that are not in `b`, in `a`'s order.
pub open spec fn seq_diff<T>(a: Seq<T>, b: Seq<T>) -> Seq<T>
    decreases a.len(),
{
    if a.len() == 0 {
        Seq::empty()
    } else if b.contains(a.first()) {
        seq_diff(a.drop_first(), b)
    } else {
        seq![a.first()] + seq_diff(a.drop_first(), b)
    }
}

/// The elements of `a` that are also in `b`, in `a`'s order.
pub open spec fn seq_inter<T>(a: Seq<T>, b: Seq<T>) -> Seq<T>
    decreases a.len(),
{
    if a.len() == 0 {
        Seq::empty()
    } else if b.contains(a.first()) {
        seq![a.first()] + seq_inter(a.drop_first(), b)
    } else {
        seq_inter(a.drop_first(), b)
    }
}

// ---------------------------------------------------------------------------
// Facts about the model.
// ---------------------------------------------------------------------------

/// `elem_index` points at the first element equal to `x` and at nothing
/// earlier; it stays within the sequence exactly when `x` is present.
pub proof fn lemma_elem_index<T>(s: Seq<T>, x: T)
    ensures
        0 <= elem_index(s, x) <= s.len(),
        s.contains(x) <==> elem_index(s, x) < s.len(),
        s.contains(x) ==> s[elem_index(s, x)] == x,
        forall|j: int| 0 <= j < elem_index(s, x) ==> s[j] != x,
    decreases s.len(),
{
    if s.len() == 0 {
    } else if s[0] == x {
    } else {
        let t = s.drop_first();
        lemma_elem_index(t, x);
        assert(forall|i: int| 0 <= i < t.len() ==> t[i] == s[i + 1]);
        if t.contains(x) {
            let i = choose|i: int| 0 <= i < t.len() && t[i] == x;
            assert(s[i + 1] == x);
        }
        if s.contains(x) {
            let i = choose|i: int| 0 <= i < s.len() && s[i] == x;
            assert(i != 0);
            assert(t[i - 1] == x);
        }
        assert forall|j: int| 0 <= j < elem_index(s, x) implies s[j] != x by {
            if j > 0 {
                assert(t[j - 1] == s[j]);
            }
        }
    }
}

/// Taking the element equal to `x` out keeps the other elements and
/// distinctness; afterwards `x` is absent.
pub proof fn lemma_without_elem<T>(s: Seq<T>, x: T)
    requires
        s.no_duplicates(),
    ensures
        without_elem(s, x).no_duplicates(),
        !without_elem(s, x).contains(x),
        without_elem(s, x).len() == s.len() - (if s.contains(x) {
            1int
        } else {
            0int
        }),
        forall|y: T| y != x ==> without_elem(s, x).contains(y) == s.contains(y),
{
    lemma_elem_index(s, x);
    if !s.contains(x) {
        return ;
    }
    let ei = elem_index(s, x);
    let t = s.remove(ei);
    assert(forall|i: int| 0 <= i < ei ==> t[i] == s[i]);
    assert(forall|i: int| ei <= i < t.len() ==> t[i] == s[i + 1]);
    assert forall|i: int, j: int| 0 <= i < j < t.len() implies t[i] != t[j] by {
        let si = if i < ei {
            i
        } else {
            i + 1
        };
        let sj = if j < ei {
            j
        } else {
            j + 1
        };
        assert(t[i] == s[si] && t[j] == s[sj]);
    }
    assert forall|i: int| 0 <= i < t.len() implies t[i] != x by {
        let si = if i < ei {
            i
        } else {
            i + 1
        };
        assert(t[i] == s[si]);
        assert(s[ei] == x);
    }
    assert(!t.contains(x));
    assert forall|y: T| y != x implies t.contains(y) == s.contains(y) by {
        if s.contains(y) {
            let i = choose|i: int| 0 <= i < s.len() && s[i] == y;
            assert(i != ei);
            let ti = if i < ei {
                i
            } else {
                i - 1
            };
            assert(t[ti] == s[i]);
        }
        if t.contains(y) {
            let i = choose|i: int| 0 <= i < t.len() && t[i] == y;
            let si = if i < ei {
                i
            } else {
                i + 1
            };
            assert(t[i] == s[si]);
        }
    }
}

/// Membership in a difference: exactly the members of `a` that `b` lacks.
pub proof fn lemma_seq_diff_membership<T>(a: Seq<T>, b: Seq<T>)
    ensures
        forall|x: T| #[trigger] seq_diff(a, b).contains(x) <==> a.contains(x) && !b.contains(x),
    decreases a.len(),
{
    if a.len() > 0 {
        let t = a.drop_first();
        lemma_seq_diff_membership(t, b);
        assert(forall|i: int| 0 <= i < t.len() ==> t[i] == a[i + 1]);
        let d = seq_diff(a, b);
        assert forall|x: T| #[trigger] d.contains(x) implies a.contains(x) && !b.contains(x) by {
            let i = choose|i: int| 0 <= i < d.len() && d[i] == x;
            if b.contains(a.first()) {
                assert(seq_diff(t, b).contains(x));
                let j = choose|j: int| 0 <= j < t.len() && t[j] == x;
                assert(a[j + 1] == x);
            } else {
                if i == 0 {
                    assert(x == a.first());
                    assert(a[0] == x);
                } else {
                    assert(d[i] == seq_diff(t, b)[i - 1]);
                    assert(seq_diff(t, b).contains(x));
                    let j = choose|j: int| 0 <= j < t.len() && t[j] == x;
                    assert(a[j + 1] == x);
                }
            }
        }
        assert forall|x: T| a.contains(x) && !b.contains(x) implies #[trigger] d.contains(x) by {
            let i = choose|i: int| 0 <= i < a.len() && a[i] == x;
            if i == 0 {
                assert(!b.contains(a.first()));
                assert(d[0] == x);
            } else {
                assert(t[i - 1] == x);
                assert(t.contains(x));
                assert(seq_diff(t, b).contains(x));
                let j = choose|j: int| 0 <= j < seq_diff(t, b).len() && seq_diff(t, b)[j] == x;
                if b.contains(a.first()) {
                    assert(d[j] == x);
                } else {
                    assert(d[j + 1] == x);
                }
            }
        }
    }
}

/// Membership in an intersection: exactly the members of `a` that `b` also
/// holds.
pub proof fn lemma_seq_inter_membership<T>(a: Seq<T>, b: Seq<T>)
    ensures
        forall|x: T| #[trigger] seq_inter(a, b).contains(x) <==> a.contains(x) && b.contains(x),
    decreases a.len(),
{
    if a.len() > 0 {
        let t = a.drop_first();
        lemma_seq_inter_membership(t, b);
        assert(forall|i: int| 0 <= i < t.len() ==> t[i] == a[i + 1]);
        let d = seq_inter(a, b);
        assert forall|x: T| #[trigger] d.contains(x) implies a.contains(x) && b.contains(x) by {
            let i = choose|i: int| 0 <= i < d.len() && d[i] == x;
            if !b.contains(a.first()) {
                assert(seq_inter(t, b).contains(x));
                let j = choose|j: int| 0 <= j < t.len() && t[j] == x;
                assert(a[j + 1] == x);
            } else {
                if i == 0 {
                    assert(x == a.first());
                    assert(a[0] == x);
                } else {
                    assert(d[i] == seq_inter(t, b)[i - 1]);
                    assert(seq_inter(t, b).contains(x));
                    let j = choose|j: int| 0 <= j < t.len() && t[j] == x;
                    assert(a[j + 1] == x);
                }
            }
        }
        assert forall|x: T| a.contains(x) && b.contains(x) implies #[trigger] d.contains(x) by {
            let i = choose|i: int| 0 <= i < a.len() && a[i] == x;
            if i == 0 {
                assert(b.contains(a.first()));
                assert(d[0] == x);
            } else {
                assert(t[i - 1] == x);
                assert(t.contains(x));
                assert(seq_inter(t, b).contains(x));
                let j = choose|j: int| 0 <= j < seq_inter(t, b).len() && seq_inter(t, b)[j] == x;
                if !b.contains(a.first()) {
                    assert(d[j] == x);
                } else {
                    assert(d[j + 1] == x);
                }
            }
        }
    }
}

/// A difference of a duplicate-free sequence is duplicate-free.
pub proof fn lemma_seq_diff_distinct<T>(a: Seq<T>, b: Seq<T>)
    requires
        a.no_duplicates(),
    ensures
        seq_diff(a, b).no_duplicates(),
    decreases a.len(),
{
    if a.len() > 0 {
        let t = a.drop_first();
        assert(t.no_duplicates()) by {
            assert(forall|i: int| 0 <= i < t.len() ==> t[i] == a[i + 1]);
        }
        lemma_seq_diff_distinct(t, b);
        lemma_seq_diff_membership(t, b);
        if !b.contains(a.first()) {
            let d = seq_diff(a, b);
            let dt = seq_diff(t, b);
            assert(!t.contains(a.first())) by {
                if t.contains(a.first()) {
                    let i = choose|i: int| 0 <= i < t.len() && t[i] == a.first();
                    assert(a[i + 1] == a[0]);
                }
            }
            assert forall|i: int, j: int| 0 <= i < j < d.len() implies d[i] != d[j] by {
                if i == 0 {
                    assert(d[j] == dt[j - 1]);
                    assert(dt.contains(dt[j - 1]));
                } else {
                    assert(d[i] == dt[i - 1] && d[j] == dt[j - 1]);
                }
            }
        }
    }
}

/// An intersection of a duplicate-free sequence is duplicate-free.
pub proof fn lemma_seq_inter_distinct<T>(a: Seq<T>, b: Seq<T>)
    requires
        a.no_duplicates(),
    ensures
        seq_inter(a, b).no_duplicates(),
    decreases a.len(),
{
    if a.len() > 0 {
        let t = a.drop_first();
        assert(t.no_duplicates()) by {
            assert(forall|i: int| 0 <= i < t.len() ==> t[i] == a[i + 1]);
        }
        lemma_seq_inter_distinct(t, b);
        lemma_seq_inter_membership(t, b);
        if b.contains(a.first()) {
            let d = seq_inter(a, b);
            let dt = seq_inter(t, b);
            assert(!t.contains(a.first())) by {
                if t.contains(a.first()) {
                    let i = choose|i: int| 0 <= i < t.len() && t[i] == a.first();
                    assert(a[i + 1] == a[0]);
                }
            }
            assert forall|i: int, j: int| 0 <= i < j < d.len() implies d[i] != d[j] by {
                if i == 0 {
                    assert(d[j] == dt[j - 1]);
                    assert(dt.contains(dt[j - 1]));
                } else {
                    assert(d[i] == dt[i - 1] && d[j] == dt[j - 1]);
                }
            }
        }
    }
}

/// One step of a difference scan: the tail from `pos` starts with `a[pos]`
/// when `b` lacks it, and drops it otherwise.
pub proof fn lemma_seq_diff_step<T>(a: Seq<T>, b: Seq<T>, pos: int)
    requires
        0 <= pos < a.len(),
    ensures
        !b.contains(a[pos]) ==> seq_diff(a.skip(pos), b) == seq![a[pos]] + seq_diff(
            a.skip(pos + 1),
            b,
        ),
        b.contains(a[pos]) ==> seq_diff(a.skip(pos), b) == seq_diff(a.skip(pos + 1), b),
{
    let u = a.skip(pos);
    assert(u.len() > 0);
    assert(u.first() == a[pos]);
    assert(u.drop_first() =~= a.skip(pos + 1));
}

/// One step of an intersection scan: the tail from `pos` starts with
/// `a[pos]` when `b` holds it, and drops it otherwise.
pub proof fn lemma_seq_inter_step<T>(a: Seq<T>, b: Seq<T>, pos: int)
    requires
        0 <= pos < a.len(),
    ensures
        b.contains(a[pos]) ==> seq_inter(a.skip(pos), b) == seq![a[pos]] + seq_inter(
            a.skip(pos + 1),
            b,
        ),
        !b.contains(a[pos]) ==> seq_inter(a.skip(pos), b) == seq_inter(a.skip(pos + 1), b),
{
    let u = a.skip(pos);
    assert(u.len() > 0);
    assert(u.first() == a[pos]);
    assert(u.drop_first() =~= a.skip(pos + 1));
}

/// Past the end of a scan nothing is left.
pub proof fn lemma_scan_end<T>(a: Seq<T>, b: Seq<T>)
    ensures
        seq_diff(a.skip(a.len() as int), b) == Seq::<T>::empty(),
        seq_inter(a.skip(a.len() as int), b) == Seq::<T>::empty(),
{
    assert(a.skip(a.len() as int) =~= Seq::<T>::empty());
}

// ---------------------------------------------------------------------------
// The container.
// ---------------------------------------------------------------------------

/// A set of unique elements over a growable sequence, searched by linear
/// scan.
#[derive(Debug, Clone)]
pub struct VecSet<T> {
    elems: Vec<T>,
}

impl<T> View for VecSet<T> {
    type V = Seq<T>;

    closed spec fn view(&self) -> Seq<T> {
        self.elems@
    }
}

impl<T> VecSet<T> {
    /// The distinctness invariant: no element is stored twice. Every
    /// constructor establishes it and every operation keeps it.
    pub open spec fn wf(self) -> bool {
        self@.no_duplicates()
    }

    /// Creates an empty set.
    pub fn new() -> (r: Self)
        ensures
            r@ == Seq::<T>::empty(),
            r.wf(),
    {
        VecSet { elems: Vec::new() }
    }

    /// Creates an empty set whose backing sequence has room for at least
    /// `capacity` elements.
    pub fn with_capacity(capacity: usize) -> (r: Self)
        ensures
            r@ == Seq::<T>::empty(),
            r.wf(),
    {
        VecSet { elems: Vec::with_capacity(capacity) }
    }

    /// Number of stored elements.
    pub fn len(&self) -> (r: usize)
        ensures
            r == self@.len(),
    {
        self.elems.len()
    }

    /// True when nothing is stored.
    pub fn is_empty(&self) -> (r: bool)
        ensures
            r <==> self@.len() == 0,
    {
        self.elems.is_empty()
    }

    /// How many elements the backing sequence can hold without reallocating.
    pub fn capacity(&self) -> (r: usize)
        ensures
            r >= self@.len(),
    {
        crate::storage::vec_capacity(&self.elems)
    }

    /// Reserves room for at least `additional` further elements.
    pub fn reserve(&mut self, additional: usize)
        ensures
            final(self)@ == old(self)@,
    {
        self.elems.reserve(additional);
    }

    /// Reserves room for at least `additional` further elements, reporting
    /// allocation failure instead of aborting.
    pub fn try_reserve(&mut self, additional: usize) -> (r: Result<
        (),
        std::collections::TryReserveError,
    >)
        ensures
            final(self)@ == old(self)@,
    {
        self.elems.try_reserve(additional)
    }

    /// Drops excess capacity of the backing sequence.
    pub fn shrink_to_fit(&mut self)
        ensures
            final(self)@ == old(self)@,
    {
        crate::storage::vec_shrink_to_fit(&mut self.elems);
    }

    /// Drops capacity of the backing sequence down to the given lower bound.
    pub fn shrink_to(&mut self, min_capacity: usize)
        ensures
            final(self)@ == old(self)@,
    {
        crate::storage::vec_shrink_to(&mut self.elems, min_capacity);
    }

    /// Removes every element.
    pub fn clear(&mut self)
        ensures
            final(self)@ == Seq::<T>::empty(),
            final(self).wf(),
    {
        self.elems.clear();
    }
}

impl<T: Eq> VecSet<T> {
    /// Index of the first element equal to `*value`, by one forward scan.
    fn index_of(&self, value: &T) -> (r: Option<usize>)
        ensures
            r matches Some(i) ==> i < self@.len(),
            eq_decides::<T>() ==> match r {
                Some(i) => self@.contains(*value) && i as int == elem_index(self@, *value),
                None => !self@.contains(*value),
            },
    {
        let n = self.elems.len();
        let mut i: usize = 0;
        while i < n
            invariant
                n == self.elems@.len(),
                i <= n,
                eq_decides::<T>() ==> forall|j: int| 0 <= j < i ==> self.elems@[j] != *value,
            decreases n - i,
        {
            if &self.elems[i] == value {
                proof {
                    if eq_decides::<T>() {
                        lemma_elem_index(self@, *value);
                        assert(self@.contains(*value));
                        let ei = elem_index(self@, *value);
                        if ei < i {
                            assert(self@[ei] != *value);
                        }
                        assert(ei == i);
                    }
                }
                return Some(i);
            }
            i += 1;
        }
        proof {
            if eq_decides::<T>() && self@.contains(*value) {
                let w = choose|j: int| 0 <= j < self@.len() && self@[j] == *value;
                assert(self@[w] != *value);
            }
        }
        None
    }

    /// True when an element equal to `*value` is stored.
    pub fn contains(&self, value: &T) -> (r: bool)
        requires
            eq_decides::<T>(),
        ensures
            r <==> self@.contains(*value),
    {
        self.index_of(value).is_some()
    }

    /// The stored element equal to `*value`, or nothing when it is absent.
    pub fn get(&self, value: &T) -> (r: Option<&T>)
        requires
            eq_decides::<T>(),
        ensures
            self@.contains(*value) ==> (r matches Some(x) && *x == *value),
            !self@.contains(*value) ==> r is None,
    {
        match self.index_of(value) {
            Some(i) => {
                proof {
                    lemma_elem_index(self@, *value);
                }
                Some(&self.elems[i])
            },
            None => None,
        }
    }

    /// Adds `value` when no equal element is stored yet, as a new last
    /// element, and says whether it did; a duplicate is a no-op that keeps
    /// even the order.
    pub fn insert(&mut self, value: T) -> (r: bool)
        requires
            eq_decides::<T>(),
            old(self).wf(),
        ensures
            r <==> !old(self)@.contains(value),
            final(self)@ == if !old(self)@.contains(value) {
                old(self)@.push(value)
            } else {
                old(self)@
            },
            final(self).wf(),
    {
        if self.contains(&value) {
            return false;
        }
        proof {
            let s = self@;
            assert forall|i: int, j: int|
                0 <= i < j < s.push(value).len() implies s.push(value)[i] != s.push(
                value,
            )[j] by {
                if j == s.len() {
                    assert(s.contains(s[i]) ==> s[i] != value);
                }
            }
        }
        self.elems.push(value);
        true
    }

    /// Stores `value`, removing any stored equal element first and returning
    /// it; the new element is appended at the end, so replacing moves the
    /// element to the end of the order.
    pub fn replace(&mut self, value: T) -> (r: Option<T>)
        requires
            eq_decides::<T>(),
            old(self).wf(),
        ensures
            final(self)@ == without_elem(old(self)@, value).push(value),
            r == if old(self)@.contains(value) {
                Some(old(self)@[elem_index(old(self)@, value)])
            } else {
                None::<T>
            },
            final(self).wf(),
    {
        proof {
            lemma_without_elem(old(self)@, value);
            lemma_elem_index(old(self)@, value);
        }
        let prev = match self.index_of(&value) {
            Some(i) => Some(self.elems.remove(i)),
            None => None,
        };
        proof {
            let t = without_elem(old(self)@, value);
            assert forall|i: int, j: int|
                0 <= i < j < t.push(value).len() implies t.push(value)[i] != t.push(
                value,
            )[j] by {
                if j == t.len() {
                    assert(t.contains(t[i]) ==> t[i] != value);
                }
            }
        }
        self.elems.push(value);
        prev
    }

    /// Removes the stored element equal to `*value` and says whether there
    /// was one. The remaining elements keep their relative order.
    pub fn remove(&mut self, value: &T) -> (r: bool)
        requires
            eq_decides::<T>(),
            old(self).wf(),
        ensures
            r <==> old(self)@.contains(*value),
            final(self)@ == without_elem(old(self)@, *value),
            final(self).wf(),
    {
        proof {
            lemma_without_elem(old(self)@, *value);
        }
        match self.index_of(value) {
            Some(i) => {
                proof {
                    lemma_elem_index(self@, *value);
                }
                let _ = self.elems.remove(i);
                true
            },
            None => false,
        }
    }

    /// True when no element of `self` is in `other`.
    pub fn is_disjoint(&self, other: &Self) -> (r: bool)
        requires
            eq_decides::<T>(),
        ensures
            r <==> forall|i: int| 0 <= i < self@.len() ==> !other@.contains(self@[i]),
    {
        let n = self.elems.len();
        let mut i: usize = 0;
        while i < n
            invariant
                eq_decides::<T>(),
                n == self.elems@.len(),
                i <= n,
                forall|j: int| 0 <= j < i ==> !other@.contains(self.elems@[j]),
            decreases n - i,
        {
            if other.contains(&self.elems[i]) {
                proof {
                    assert(0 <= i < self@.len() && other@.contains(self@[i as int]));
                }
                return false;
            }
            i += 1;
        }
        true
    }

    /// True when every element of `self` is in `other`.
    pub fn is_subset(&self, other: &Self) -> (r: bool)
        requires
            eq_decides::<T>(),
        ensures
            r <==> all_in(self@, other@),
    {
        self.subset_check(other)
    }

    /// True when every element of `other` is in `self`.
    pub fn is_superset(&self, other: &Self) -> (r: bool)
        requires
            eq_decides::<T>(),
        ensures
            r <==> all_in(other@, self@),
    {
        other.is_subset(self)
    }

    /// One direction of the containment check, usable without any promise
    /// about `T`'s equality: the answer is pinned only where executable
    /// equality decides logical equality.
    fn subset_check(&self, other: &Self) -> (r: bool)
        ensures
            eq_decides::<T>() ==> (r <==> all_in(self@, other@)),
    {
        let n = self.elems.len();
        let mut i: usize = 0;
        while i < n
            invariant
                n == self.elems@.len(),
                i <= n,
                eq_decides::<T>() ==> forall|j: int| 0 <= j < i ==> other@.contains(self.elems@[j]),
            decreases n - i,
        {
            match other.index_of(&self.elems[i]) {
                Some(_) => {},
                None => {
                    return false;
                },
            }
            i += 1;
        }
        true
    }
}

impl<T> Default for VecSet<T> {
    /// An empty set.
    fn default() -> (r: Self)
        ensures
            r@ == Seq::<T>::empty(),
            r.wf(),
    {
        VecSet::new()
    }
}

impl<T: Eq> PartialEq for VecSet<T> {
    fn eq(&self, other: &Self) -> (r: bool) {
        let r = self.subset_check(other) && other.subset_check(self);
        proof {
            lemma_mutual_containment(self@, other@);
        }
        r
    }
}

impl<T: Eq> vstd::std_specs::cmp::PartialEqSpecImpl for VecSet<T> {
    open spec fn obeys_eq_spec() -> bool {
        eq_decides::<T>()
    }

    open spec fn eq_spec(&self, other: &Self) -> bool {
        self@.to_set() == other@.to_set()
    }
}

/// Mutual containment of two sequences is equality of the sets of their
/// elements.
pub proof fn lemma_mutual_containment<T>(a: Seq<T>, b: Seq<T>)
    ensures
        (all_in(a, b) && all_in(b, a)) <==> a.to_set() == b.to_set(),
{
    if all_in(a, b) && all_in(b, a) {
        assert forall|x: T| a.to_set().contains(x) implies b.to_set().contains(x) by {
            let i = choose|i: int| 0 <= i < a.len() && a[i] == x;
        }
        assert forall|x: T| b.to_set().contains(x) implies a.to_set().contains(x) by {
            let i = choose|i: int| 0 <= i < b.len() && b[i] == x;
        }
        assert(a.to_set() =~= b.to_set());
    }
    if a.to_set() == b.to_set() {
        assert forall|i: int| 0 <= i < a.len() implies b.contains(a[i]) by {
            assert(a.contains(a[i]));
            assert(b.to_set().contains(a[i]));
        }
        assert forall|i: int| 0 <= i < b.len() implies a.contains(b[i]) by {
            assert(b.contains(b[i]));
            assert(a.to_set().contains(b[i]));
        }
    }
}

// ---------------------------------------------------------------------------
// Element cursors.
// ---------------------------------------------------------------------------

/// A cursor over the elements of a borrowed set, front to back.
pub struct Iter<'a, T> {
    pub base: &'a VecSet<T>,
    pub pos: usize,
}

/// A cursor that hands the drained elements out, front to back; the set
/// itself is already empty.
pub struct Drain<T> {
    pub taken: Vec<T>,
}

/// A cursor that hands the elements of a consumed set out, front to back.
pub struct IntoIter<T> {
    pub taken: Vec<T>,
}

impl<'a, T> Iter<'a, T> {
    /// The next element, or nothing once all elements are out.
    pub fn next(&mut self) -> (r: Option<&'a T>)
        ensures
            old(self).pos < old(self).base@.len() ==> (r matches Some(x) && *x == old(
                self,
            ).base@[old(self).pos as int] && final(self).pos == old(self).pos + 1),
            old(self).pos >= old(self).base@.len() ==> (r is None && final(self).pos == old(
                self,
            ).pos),
            final(self).base == old(self).base,
    {
        if self.pos < self.base.elems.len() {
            let x = &self.base.elems[self.pos];
            self.pos = self.pos + 1;
            Some(x)
        } else {
            None
        }
    }

    /// How many elements are still to come.
    pub fn len(&self) -> (r: usize)
        ensures
            r == if self.pos <= self.base@.len() {
                self.base@.len() - self.pos
            } else {
                0int
            },
    {
        let n = self.base.elems.len();
        if self.pos <= n {
            n - self.pos
        } else {
            0
        }
    }

    /// Lower and upper bound on the elements still to come; both are exact.
    pub fn size_hint(&self) -> (r: (usize, Option<usize>))
        ensures
            r.0 == if self.pos <= self.base@.len() {
                self.base@.len() - self.pos
            } else {
                0int
            },
            r.1 == Some(r.0),
    {
        let n = self.len();
        (n, Some(n))
    }
}

impl<T> Drain<T> {
    /// The next drained element, or nothing once all are out.
    pub fn next(&mut self) -> (r: Option<T>)
        ensures
            old(self).taken@.len() > 0 ==> (r == Some(old(self).taken@[0]) && final(self).taken@
                == old(self).taken@.drop_first()),
            old(self).taken@.len() == 0 ==> (r is None && final(self).taken@ == old(
                self,
            ).taken@),
    {
        if self.taken.len() > 0 {
            Some(self.taken.remove(0))
        } else {
            None
        }
    }
}

impl<T> IntoIter<T> {
    /// The next element of the consumed set, or nothing once all are out.
    pub fn next(&mut self) -> (r: Option<T>)
        ensures
            old(self).taken@.len() > 0 ==> (r == Some(old(self).taken@[0]) && final(self).taken@
                == old(self).taken@.drop_first()),
            old(self).taken@.len() == 0 ==> (r is None && final(self).taken@ == old(
                self,
            ).taken@),
    {
        if self.taken.len() > 0 {
            Some(self.taken.remove(0))
        } else {
            None
        }
    }

    /// How many elements are still to come.
    pub fn len(&self) -> (r: usize)
        ensures
            r == self.taken@.len(),
    {
        self.taken.len()
    }
}

impl<T> VecSet<T> {
    /// A cursor over the stored elements, in sequence order.
    pub fn iter(&self) -> (r: Iter<'_, T>)
        ensures
            r.base == self,
            r.pos == 0,
    {
        Iter { base: self, pos: 0 }
    }

    /// Empties the set and hands the removed elements out through a cursor.
    pub fn drain(&mut self) -> (r: Drain<T>)
        ensures
            final(self)@ == Seq::<T>::empty(),
            final(self).wf(),
            r.taken@ == old(self)@,
    {
        let mut taken: Vec<T> = Vec::new();
        core::mem::swap(&mut self.elems, &mut taken);
        Drain { taken }
    }

    /// Consumes the set into a cursor over its elements.
    pub fn into_iter(self) -> (r: IntoIter<T>)
        ensures
            r.taken@ == self@,
    {
        IntoIter { taken: self.elems }
    }
}

// ---------------------------------------------------------------------------
// Set algebra: lazy cursors over two borrowed sets. Nothing is materialized;
// each step scans one set and tests membership in the other.
// ---------------------------------------------------------------------------

/// A cursor over the elements of `base` that are not in `other`.
pub struct Difference<'a, T> {
    pub base: &'a VecSet<T>,
    pub other: &'a VecSet<T>,
    pub pos: usize,
}

/// A cursor over the elements of `base` that are also in `other`; `base` is
/// the smaller of the two sets it was built from.
pub struct Intersection<'a, T> {
    pub base: &'a VecSet<T>,
    pub other: &'a VecSet<T>,
    pub pos: usize,
}

/// A cursor over all elements of the larger set, followed by the elements of
/// the smaller one that the larger does not hold.
pub struct Union<'a, T> {
    pub big: &'a VecSet<T>,
    pub small: &'a VecSet<T>,
    pub big_pos: usize,
    pub small_pos: usize,
}

/// A cursor over the elements in exactly one of two sets: first those only
/// in the first set, then those only in the second.
pub struct SymmetricDifference<'a, T> {
    pub first: Difference<'a, T>,
    pub second: Difference<'a, T>,
}

impl<'a, T> Difference<'a, T> {
    /// The cursor has not run past the end of its base set.
    pub open spec fn wf(self) -> bool {
        self.pos <= self.base@.len()
    }

    /// The elements still to come.
    pub open spec fn remaining(self) -> Seq<T> {
        seq_diff(self.base@.skip(self.pos as int), self.other@)
    }
}

impl<'a, T: Eq> Difference<'a, T> {
    /// The next element of `base` not in `other`, or nothing when none is
    /// left.
    pub fn next(&mut self) -> (r: Option<&'a T>)
        requires
            eq_decides::<T>(),
            old(self).wf(),
        ensures
            final(self).base == old(self).base,
            final(self).other == old(self).other,
            final(self).wf(),
            old(self).remaining().len() > 0 ==> (r matches Some(x) && *x == old(
                self,
            ).remaining()[0] && final(self).remaining() == old(self).remaining().drop_first()),
            old(self).remaining().len() == 0 ==> (r is None && final(self).remaining() == old(
                self,
            ).remaining()),
    {
        let ghost target = old(self).remaining();
        let base = self.base;
        let n = base.elems.len();
        while self.pos < n
            invariant
                eq_decides::<T>(),
                self.base == old(self).base,
                self.other == old(self).other,
                target == old(self).remaining(),
                base == self.base,
                n == base@.len(),
                self.pos <= n,
                self.remaining() == target,
            decreases n - self.pos,
        {
            let i = self.pos;
            proof {
                lemma_seq_diff_step(base@, self.other@, i as int);
            }
            if !self.other.contains(&base.elems[i]) {
                self.pos = i + 1;
                proof {
                    assert(target[0] == base@[i as int]);
                    assert(target.drop_first() =~= self.remaining());
                }
                return Some(&base.elems[i]);
            }
            self.pos = i + 1;
        }
        proof {
            lemma_scan_end(base@, self.other@);
        }
        None
    }
}

impl<'a, T> Intersection<'a, T> {
    /// The cursor has not run past the end of its base set.
    pub open spec fn wf(self) -> bool {
        self.pos <= self.base@.len()
    }

    /// The elements still to come.
    pub open spec fn remaining(self) -> Seq<T> {
        seq_inter(self.base@.skip(self.pos as int), self.other@)
    }
}

impl<'a, T: Eq> Intersection<'a, T> {
    /// The next element of `base` that is also in `other`, or nothing when
    /// none is left.
    pub fn next(&mut self) -> (r: Option<&'a T>)
        requires
            eq_decides::<T>(),
            old(self).wf(),
        ensures
            final(self).base == old(self).base,
            final(self).other == old(self).other,
            final(self).wf(),
            old(self).remaining().len() > 0 ==> (r matches Some(x) && *x == old(
                self,
            ).remaining()[0] && final(self).remaining() == old(self).remaining().drop_first()),
            old(self).remaining().len() == 0 ==> (r is None && final(self).remaining() == old(
                self,
            ).remaining()),
    {
        let ghost target = old(self).remaining();
        let base = self.base;
        let n = base.elems.len();
        while self.pos < n
            invariant
                eq_decides::<T>(),
                self.base == old(self).base,
                self.other == old(self).other,
                target == old(self).remaining(),
                base == self.base,
                n == base@.len(),
                self.pos <= n,
                self.remaining() == target,
            decreases n - self.pos,
        {
            let i = self.pos;
            proof {
                lemma_seq_inter_step(base@, self.other@, i as int);
            }
            if self.other.contains(&base.elems[i]) {
                self.pos = i + 1;
                proof {
                    assert(target[0] == base@[i as int]);
                    assert(target.drop_first() =~= self.remaining());
                }
                return Some(&base.elems[i]);
            }
            self.pos = i + 1;
        }
        proof {
            lemma_scan_end(base@, self.other@);
        }
        None
    }
}

impl<'a, T> Union<'a, T> {
    /// Neither phase of the cursor has run past its end.
    pub open spec fn wf(self) -> bool {
        self.big_pos <= self.big@.len() && self.small_pos <= self.small@.len()
    }

    /// The elements still to come: the rest of the larger set, then the rest
    /// of the smaller one filtered against the larger.
    pub open spec fn remaining(self) -> Seq<T> {
        self.big@.skip(self.big_pos as int) + seq_diff(
            self.small@.skip(self.small_pos as int),
            self.big@,
        )
    }
}

impl<'a, T: Eq> Union<'a, T> {
    /// The next element of the union, or nothing when none is left.
    pub fn next(&mut self) -> (r: Option<&'a T>)
        requires
            eq_decides::<T>(),
            old(self).wf(),
        ensures
            final(self).big == old(self).big,
            final(self).small == old(self).small,
            final(self).wf(),
            old(self).remaining().len() > 0 ==> (r matches Some(x) && *x == old(
                self,
            ).remaining()[0] && final(self).remaining() == old(self).remaining().drop_first()),
            old(self).remaining().len() == 0 ==> (r is None && final(self).remaining() == old(
                self,
            ).remaining()),
    {
        let ghost target = old(self).remaining();
        let big = self.big;
        if self.big_pos < big.elems.len() {
            let i = self.big_pos;
            self.big_pos = i + 1;
            proof {
                assert(target[0] == big@[i as int]);
                assert(target.drop_first() =~= self.remaining());
            }
            return Some(&big.elems[i]);
        }
        let small = self.small;
        let n = small.elems.len();
        proof {
            assert(big@.skip(self.big_pos as int) =~= Seq::<T>::empty());
            assert(target =~= seq_diff(small@.skip(self.small_pos as int), big@));
        }
        while self.small_pos < n
            invariant
                eq_decides::<T>(),
                self.big == old(self).big,
                self.small == old(self).small,
                target == old(self).remaining(),
                big == self.big,
                small == self.small,
                self.big_pos == old(self).big_pos,
                self.big_pos == big@.len(),
                n == small@.len(),
                self.small_pos <= n,
                seq_diff(small@.skip(self.small_pos as int), big@) == target,
            decreases n - self.small_pos,
        {
            let i = self.small_pos;
            proof {
                lemma_seq_diff_step(small@, big@, i as int);
            }
            if !self.big.contains(&small.elems[i]) {
                self.small_pos = i + 1;
                proof {
                    assert(target[0] == small@[i as int]);
                    assert(big@.skip(self.big_pos as int) =~= Seq::<T>::empty());
                    assert(target.drop_first() =~= self.remaining());
                }
                return Some(&small.elems[i]);
            }
            self.small_pos = i + 1;
        }
        proof {
            lemma_scan_end(small@, big@);
            assert(big@.skip(self.big_pos as int) =~= Seq::<T>::empty());
            assert(self.remaining() =~= Seq::<T>::empty());
        }
        None
    }
}

impl<'a, T> SymmetricDifference<'a, T> {
    /// Both underlying difference cursors are within bounds.
    pub open spec fn wf(self) -> bool {
        self.first.wf() && self.second.wf()
    }

    /// The elements still to come.
    pub open spec fn remaining(self) -> Seq<T> {
        self.first.remaining() + self.second.remaining()
    }
}

impl<'a, T: Eq> SymmetricDifference<'a, T> {
    /// The next element held by exactly one of the two sets, or nothing when
    /// none is left.
    pub fn next(&mut self) -> (r: Option<&'a T>)
        requires
            eq_decides::<T>(),
            old(self).wf(),
        ensures
            final(self).wf(),
            final(self).first.base == old(self).first.base,
            final(self).first.other == old(self).first.other,
            final(self).second.base == old(self).second.base,
            final(self).second.other == old(self).second.other,
            old(self).remaining().len() > 0 ==> (r matches Some(x) && *x == old(
                self,
            ).remaining()[0] && final(self).remaining() == old(self).remaining().drop_first()),
            old(self).remaining().len() == 0 ==> (r is None && final(self).remaining() == old(
                self,
            ).remaining()),
    {
        let ghost target = old(self).remaining();
        match self.first.next() {
            Some(x) => {
                proof {
                    assert(target[0] == old(self).first.remaining()[0]);
                    assert(target.drop_first() =~= self.remaining());
                }
                Some(x)
            },
            None => {
                let r = self.second.next();
                proof {
                    assert(target =~= old(self).second.remaining());
                    if target.len() > 0 {
                        assert(target.drop_first() =~= self.remaining());
                    }
                }
                r
            },
        }
    }
}

impl<T: Eq> VecSet<T> {
    /// A lazy cursor over the elements of `self` that are not in `other`.
    pub fn difference<'a>(&'a self, other: &'a Self) -> (r: Difference<'a, T>)
        ensures
            r.base == self,
            r.other == other,
            r.pos == 0,
            r.wf(),
            r.remaining() == seq_diff(self@, other@),
    {
        proof {
            assert(self@.skip(0) =~= self@);
        }
        Difference { base: self, other, pos: 0 }
    }

    /// A lazy cursor over the common elements of `self` and `other`. The
    /// smaller set drives the scan, so each membership test walks the larger
    /// set at most `min(|self|, |other|)` times.
    pub fn intersection<'a>(&'a self, other: &'a Self) -> (r: Intersection<'a, T>)
        ensures
            r.pos == 0,
            r.wf(),
            self@.len() <= other@.len() ==> r.base == self && r.other == other,
            self@.len() > other@.len() ==> r.base == other && r.other == self,
            r.remaining() == if self@.len() <= other@.len() {
                seq_inter(self@, other@)
            } else {
                seq_inter(other@, self@)
            },
    {
        proof {
            assert(self@.skip(0) =~= self@);
            assert(other@.skip(0) =~= other@);
        }
        if self.elems.len() <= other.elems.len() {
            Intersection { base: self, other, pos: 0 }
        } else {
            Intersection { base: other, other: self, pos: 0 }
        }
    }

    /// A lazy cursor over the union of `self` and `other`: the whole larger
    /// set first, then what the smaller adds, so no element comes twice.
    pub fn union<'a>(&'a self, other: &'a Self) -> (r: Union<'a, T>)
        ensures
            r.big_pos == 0,
            r.small_pos == 0,
            r.wf(),
            self@.len() >= other@.len() ==> r.big == self && r.small == other,
            self@.len() < other@.len() ==> r.big == other && r.small == self,
            r.remaining() == if self@.len() >= other@.len() {
                self@ + seq_diff(other@, self@)
            } else {
                other@ + seq_diff(self@, other@)
            },
    {
        proof {
            assert(self@.skip(0) =~= self@);
            assert(other@.skip(0) =~= other@);
        }
        if self.elems.len() >= other.elems.len() {
            Union { big: self, small: other, big_pos: 0, small_pos: 0 }
        } else {
            Union { big: other, small: self, big_pos: 0, small_pos: 0 }
        }
    }

    /// A lazy cursor over the symmetric difference of `self` and `other`:
    /// the elements only in `self`, then the elements only in `other`.
    pub fn symmetric_difference<'a>(&'a self, other: &'a Self) -> (r: SymmetricDifference<'a, T>)
        ensures
            r.wf(),
            r.first.base == self && r.first.other == other && r.first.pos == 0,
            r.second.base == other && r.second.other == self && r.second.pos == 0,
            r.remaining() == seq_diff(self@, other@) + seq_diff(other@, self@),
    {
        SymmetricDifference { first: self.difference(other), second: other.difference(self) }
    }
}

// ---------------------------------------------------------------------------
// Bulk operations.
// ---------------------------------------------------------------------------

/// The elements of `t` inserted into `s` front to back: a later duplicate is
/// a no-op, so of equal elements the first one wins and keeps its place.
pub open spec fn inserted_all<T>(s: Seq<T>, t: Seq<T>) -> Seq<T>
    decreases t.len(),
{
    if t.len() == 0 {
        s
    } else {
        let prev = inserted_all(s, t.drop_last());
        if prev.contains(t.last()) {
            prev
        } else {
            prev.push(t.last())
        }
    }
}

/// A mask selects a subsequence: every selected element was present, and
/// distinctness survives.
pub proof fn lemma_masked_distinct<T>(s: Seq<T>, keep: Seq<bool>)
    requires
        s.no_duplicates(),
    ensures
        masked(s, keep).no_duplicates(),
        forall|x: T| #[trigger] masked(s, keep).contains(x) ==> s.contains(x),
    decreases s.len(),
{
    if s.len() > 0 {
        let d = s.drop_last();
        assert(d.no_duplicates()) by {
            assert(forall|i: int| 0 <= i < d.len() ==> d[i] == s[i]);
        }
        lemma_masked_distinct(d, keep.drop_last());
        assert(forall|i: int| 0 <= i < d.len() ==> d[i] == s[i]);
        assert forall|x: T| #[trigger] masked(s, keep).contains(x) implies s.contains(x) by {
            let m = masked(s, keep);
            let i = choose|i: int| 0 <= i < m.len() && m[i] == x;
            if keep.len() == s.len() && keep.last() && i == m.len() - 1 {
                assert(m[i] == s.last());
            } else {
                assert(m[i] == masked(d, keep.drop_last())[i]);
                assert(masked(d, keep.drop_last()).contains(x));
                let j = choose|j: int| 0 <= j < d.len() && d[j] == x;
                assert(s[j] == x);
            }
        }
        if keep.len() == s.len() && keep.last() {
            let m0 = masked(d, keep.drop_last());
            assert(!m0.contains(s.last())) by {
                if m0.contains(s.last()) {
                    assert(d.contains(s.last()));
                    let l = choose|l: int| 0 <= l < d.len() && d[l] == s.last();
                    assert(s[l] == s[s.len() - 1]);
                }
            }
            assert forall|i: int, j: int|
                0 <= i < j < masked(s, keep).len() implies masked(s, keep)[i] != masked(
                s,
                keep,
            )[j] by {
                if j == masked(s, keep).len() - 1 {
                    assert(masked(s, keep)[i] == m0[i]);
                    assert(m0.contains(m0[i]));
                }
            }
        }
    }
}

impl<T: Eq> VecSet<T> {
    /// Builds a set by inserting the listed elements into an empty set,
    /// front to back: of equal elements the first one wins and keeps its
    /// place, later duplicates are dropped.
    pub fn from_vec(list: Vec<T>) -> (r: Self)
        requires
            eq_decides::<T>(),
        ensures
            r@ == inserted_all(Seq::<T>::empty(), list@),
            r.wf(),
    {
        let ghost all = list@;
        let mut source = list;
        let mut st = VecSet::new();
        proof {
            assert(all.take(0) =~= Seq::<T>::empty());
        }
        while source.len() > 0
            invariant
                eq_decides::<T>(),
                source@.len() <= all.len(),
                forall|i: int|
                    0 <= i < source@.len() ==> source@[i] == all[all.len() - source@.len() + i],
                st@ == inserted_all(Seq::<T>::empty(), all.take(all.len() - source@.len())),
                st.wf(),
            decreases source@.len(),
        {
            let ghost done = all.len() - source@.len();
            let x = source.remove(0);
            st.insert(x);
            proof {
                let t = all.take(done + 1);
                assert(t.drop_last() =~= all.take(done));
                assert(t.last() == all[done]);
            }
        }
        proof {
            assert(all.take(all.len() as int) =~= all);
        }
        st
    }

    /// Inserts every listed element, front to back: elements already stored
    /// stay where they are, new ones are appended in list order.
    pub fn extend(&mut self, other: Vec<T>)
        requires
            eq_decides::<T>(),
            old(self).wf(),
        ensures
            final(self)@ == inserted_all(old(self)@, other@),
            final(self).wf(),
    {
        let ghost all = other@;
        let mut source = other;
        proof {
            assert(all.take(0) =~= Seq::<T>::empty());
        }
        while source.len() > 0
            invariant
                eq_decides::<T>(),
                source@.len() <= all.len(),
                forall|i: int|
                    0 <= i < source@.len() ==> source@[i] == all[all.len() - source@.len() + i],
                self@ == inserted_all(old(self)@, all.take(all.len() - source@.len())),
                self.wf(),
            decreases source@.len(),
        {
            let ghost done = all.len() - source@.len();
            let x = source.remove(0);
            self.insert(x);
            proof {
                let t = all.take(done + 1);
                assert(t.drop_last() =~= all.take(done));
                assert(t.last() == all[done]);
            }
        }
        proof {
            assert(all.take(all.len() as int) =~= all);
        }
    }

    /// Keeps exactly the elements for which `f` answers true, in their
    /// relative order, in one pass.
    pub fn retain<F: Fn(&T) -> bool>(&mut self, f: F)
        requires
            old(self).wf(),
            forall|i: int| 0 <= i < old(self)@.len() ==> call_requires(f, (&old(self)@[i],)),
        ensures
            exists|keep: Seq<bool>|
                {
                    &&& keep.len() == old(self)@.len()
                    &&& (forall|i: int|
                        #![trigger keep[i]]
                        0 <= i < keep.len() ==> call_ensures(f, (&old(self)@[i],), keep[i]))
                    &&& final(self)@ == masked(old(self)@, keep)
                },
            final(self).wf(),
    {
        let ghost all = old(self)@;
        let mut source: Vec<T> = Vec::new();
        core::mem::swap(&mut self.elems, &mut source);
        let ghost mut keep = Seq::<bool>::empty();
        proof {
            assert(all.take(0) =~= Seq::<T>::empty());
            assert(masked(all.take(0), keep) =~= Seq::<T>::empty());
        }
        while source.len() > 0
            invariant
                source@.len() <= all.len(),
                forall|i: int|
                    0 <= i < source@.len() ==> source@[i] == all[all.len() - source@.len() + i],
                keep.len() == all.len() - source@.len(),
                forall|i: int|
                    #![trigger keep[i]]
                    0 <= i < keep.len() ==> call_ensures(f, (&all[i],), keep[i]),
                self.elems@ == masked(all.take(keep.len() as int), keep),
                forall|i: int| 0 <= i < all.len() ==> call_requires(f, (&all[i],)),
            decreases source@.len(),
        {
            let ghost done = keep.len() as int;
            let x = source.remove(0);
            assert(all[done] == x);
            let xr = &x;
            let b = f(xr);
            proof {
                let kprev = keep;
                keep = keep.push(b);
                assert(call_ensures(f, (&all[done],), keep[done]));
                let t = all.take(done + 1);
                assert(t.drop_last() =~= all.take(done));
                assert(t.last() == all[done]);
                assert(keep.drop_last() =~= kprev);
                assert(forall|i: int| 0 <= i < kprev.len() ==> keep[i] == kprev[i]);
            }
            if b {
                self.elems.push(x);
            }
        }
        proof {
            assert(all.take(all.len() as int) =~= all);
            lemma_masked_distinct(all, keep);
            assert(keep.len() == all.len() && self.elems@ == masked(all, keep));
        }
    }
}

// ---------------------------------------------------------------------------
// Materialized set algebra: each collects a lazy cursor into a new set, for
// elements that are plain copies. A convenience layer over the cursors.
// ---------------------------------------------------------------------------

/// Appending what the smaller set adds keeps distinctness.
pub proof fn lemma_union_distinct<T>(a: Seq<T>, b: Seq<T>)
    requires
        a.no_duplicates(),
        b.no_duplicates(),
    ensures
        (a + seq_diff(b, a)).no_duplicates(),
{
    lemma_seq_diff_distinct(b, a);
    lemma_seq_diff_membership(b, a);
    let u = a + seq_diff(b, a);
    let d = seq_diff(b, a);
    assert forall|i: int, j: int| 0 <= i < j < u.len() implies u[i] != u[j] by {
        if i < a.len() && j >= a.len() {
            assert(u[i] == a[i] && u[j] == d[j - a.len()]);
            assert(d.contains(d[j - a.len()]));
            assert(a.contains(a[i]));
        } else if i >= a.len() {
            assert(u[i] == d[i - a.len()] && u[j] == d[j - a.len()]);
        }
    }
}

/// The two one-sided differences are disjoint, so their concatenation is
/// duplicate-free.
pub proof fn lemma_symmetric_difference_distinct<T>(a: Seq<T>, b: Seq<T>)
    requires
        a.no_duplicates(),
        b.no_duplicates(),
    ensures
        (seq_diff(a, b) + seq_diff(b, a)).no_duplicates(),
{
    lemma_seq_diff_distinct(a, b);
    lemma_seq_diff_distinct(b, a);
    lemma_seq_diff_membership(a, b);
    lemma_seq_diff_membership(b, a);
    let p = seq_diff(a, b);
    let q = seq_diff(b, a);
    let u = p + q;
    assert forall|i: int, j: int| 0 <= i < j < u.len() implies u[i] != u[j] by {
        if i < p.len() && j >= p.len() {
            assert(u[i] == p[i] && u[j] == q[j - p.len()]);
            assert(p.contains(p[i]));
            assert(q.contains(q[j - p.len()]));
        } else if i >= p.len() {
            assert(u[i] == q[i - p.len()] && u[j] == q[j - p.len()]);
        }
    }
}

impl<T: Eq + Copy> VecSet<T> {
    /// A new set holding the elements of `self` that are not in `other`.
    pub fn difference_set(&self, other: &Self) -> (r: VecSet<T>)
        requires
            eq_decides::<T>(),
            self.wf(),
        ensures
            r@ == seq_diff(self@, other@),
            r.wf(),
    {
        let mut it = self.difference(other);
        let mut out: Vec<T> = Vec::new();
        let mut fin = false;
        proof {
            lemma_seq_diff_distinct(self@, other@);
        }
        while !fin
            invariant
                eq_decides::<T>(),
                it.base == self,
                it.other == other,
                it.wf(),
                !fin ==> out@ + it.remaining() == seq_diff(self@, other@),
                fin ==> out@ == seq_diff(self@, other@),
            decreases it.remaining().len() + (if fin {
                0int
            } else {
                1int
            }),
        {
            let ghost before = out@ + it.remaining();
            match it.next() {
                Some(x) => {
                    out.push(*x);
                    proof {
                        assert(out@ + it.remaining() =~= before);
                    }
                },
                None => {
                    fin = true;
                    proof {
                        assert(out@ + it.remaining() =~= out@);
                    }
                },
            }
        }
        VecSet { elems: out }
    }

    /// A new set holding the common elements of `self` and `other`, in the
    /// order of the smaller of the two.
    pub fn intersection_set(&self, other: &Self) -> (r: VecSet<T>)
        requires
            eq_decides::<T>(),
            self.wf(),
            other.wf(),
        ensures
            r@ == if self@.len() <= other@.len() {
                seq_inter(self@, other@)
            } else {
                seq_inter(other@, self@)
            },
            r.wf(),
    {
        let mut it = self.intersection(other);
        let ghost target = it.remaining();
        let mut out: Vec<T> = Vec::new();
        let mut fin = false;
        proof {
            lemma_seq_inter_distinct(self@, other@);
            lemma_seq_inter_distinct(other@, self@);
        }
        while !fin
            invariant
                eq_decides::<T>(),
                it.base == self || it.base == other,
                it.other == self || it.other == other,
                it.wf(),
                !fin ==> out@ + it.remaining() == target,
                fin ==> out@ == target,
                target == if self@.len() <= other@.len() {
                    seq_inter(self@, other@)
                } else {
                    seq_inter(other@, self@)
                },
            decreases it.remaining().len() + (if fin {
                0int
            } else {
                1int
            }),
        {
            let ghost before = out@ + it.remaining();
            match it.next() {
                Some(x) => {
                    out.push(*x);
                    proof {
                        assert(out@ + it.remaining() =~= before);
                    }
                },
                None => {
                    fin = true;
                    proof {
                        assert(out@ + it.remaining() =~= out@);
                    }
                },
            }
        }
        VecSet { elems: out }
    }

    /// A new set holding every element of `self` and of `other`: the larger
    /// set's elements first, then what the smaller one adds.
    pub fn union_set(&self, other: &Self) -> (r: VecSet<T>)
        requires
            eq_decides::<T>(),
            self.wf(),
            other.wf(),
        ensures
            r@ == if self@.len() >= other@.len() {
                self@ + seq_diff(other@, self@)
            } else {
                other@ + seq_diff(self@, other@)
            },
            r.wf(),
    {
        let mut it = self.union(other);
        let ghost target = it.remaining();
        let mut out: Vec<T> = Vec::new();
        let mut fin = false;
        proof {
            lemma_union_distinct(self@, other@);
            lemma_union_distinct(other@, self@);
        }
        while !fin
            invariant
                eq_decides::<T>(),
                it.big == self || it.big == other,
                it.small == self || it.small == other,
                it.wf(),
                !fin ==> out@ + it.remaining() == target,
                fin ==> out@ == target,
                target == if self@.len() >= other@.len() {
                    self@ + seq_diff(other@, self@)
                } else {
                    other@ + seq_diff(self@, other@)
                },
            decreases it.remaining().len() + (if fin {
                0int
            } else {
                1int
            }),
        {
            let ghost before = out@ + it.remaining();
            match it.next() {
                Some(x) => {
                    out.push(*x);
                    proof {
                        assert(out@ + it.remaining() =~= before);
                    }
                },
                None => {
                    fin = true;
                    proof {
                        assert(out@ + it.remaining() =~= out@);
                    }
                },
            }
        }
        VecSet { elems: out }
    }

    /// A new set holding the elements in exactly one of `self` and `other`:
    /// those only in `self` first, then those only in `other`.
    pub fn symmetric_difference_set(&self, other: &Self) -> (r: VecSet<T>)
        requires
            eq_decides::<T>(),
            self.wf(),
            other.wf(),
        ensures
            r@ == seq_diff(self@, other@) + seq_diff(other@, self@),
            r.wf(),
    {
        let mut it = self.symmetric_difference(other);
        let ghost target = it.remaining();
        let mut out: Vec<T> = Vec::new();
        let mut fin = false;
        proof {
            lemma_symmetric_difference_distinct(self@, other@);
        }
        while !fin
            invariant
                eq_decides::<T>(),
                it.first.base == self && it.first.other == other,
                it.second.base == other && it.second.other == self,
                it.wf(),
                !fin ==> out@ + it.remaining() == target,
                fin ==> out@ == target,
                target == seq_diff(self@, other@) + seq_diff(other@, self@),
            decreases it.remaining().len() + (if fin {
                0int
            } else {
                1int
            }),
        {
            let ghost before = out@ + it.remaining();
            match it.next() {
                Some(x) => {
                    out.push(*x);
                    proof {
                        assert(out@ + it.remaining() =~= before);
                    }
                },
                None => {
                    fin = true;
                    proof {
                        assert(out@ + it.remaining() =~= out@);
                    }
                },
            }
        }
        VecSet { elems: out }
    }
}

// ---------------------------------------------------------------------------
// Laws of the set algebra.
// ---------------------------------------------------------------------------

/// Every element of `a` goes to exactly one side: the intersection with `b`
/// and the difference against `b` together are as large as `a` itself.
pub proof fn lemma_partition_by_membership<T>(a: Seq<T>, b: Seq<T>)
    ensures
        seq_inter(a, b).len() + seq_diff(a, b).len() == a.len(),
    decreases a.len(),
{
    if a.len() > 0 {
        lemma_partition_by_membership(a.drop_first(), b);
    }
}

/// The set of elements of a concatenation is the union of the two element
/// sets.
pub proof fn lemma_concat_to_set<T>(u: Seq<T>, v: Seq<T>)
    ensures
        (u + v).to_set() == u.to_set().union(v.to_set()),
{
    assert forall|x: T| #[trigger] (u + v).to_set().contains(x) implies u.to_set().union(
        v.to_set(),
    ).contains(x) by {
        let i = choose|i: int| 0 <= i < (u + v).len() && (u + v)[i] == x;
        if i < u.len() {
            assert(u[i] == x);
        } else {
            assert(v[i - u.len()] == x);
        }
    }
    assert forall|x: T| u.to_set().union(v.to_set()).contains(x) implies #[trigger] (u
        + v).to_set().contains(x) by {
        if u.to_set().contains(x) {
            let i = choose|i: int| 0 <= i < u.len() && u[i] == x;
            assert((u + v)[i] == x);
        } else {
            let i = choose|i: int| 0 <= i < v.len() && v[i] == x;
            assert((u + v)[u.len() + i] == x);
        }
    }
    assert((u + v).to_set() =~= u.to_set().union(v.to_set()));
}

/// What the union cursor yields holds, as a set, exactly the elements of the
/// two sets it was built from.
pub proof fn lemma_union_as_sets<T>(a: Seq<T>, b: Seq<T>)
    ensures
        (a + seq_diff(b, a)).to_set() == a.to_set().union(b.to_set()),
{
    lemma_concat_to_set(a, seq_diff(b, a));
    lemma_seq_diff_membership(b, a);
    assert forall|x: T| a.to_set().union(seq_diff(b, a).to_set()).contains(x) <==> a.to_set().union(
        b.to_set(),
    ).contains(x) by {
        if b.to_set().contains(x) && !a.to_set().contains(x) {
            assert(seq_diff(b, a).contains(x));
        }
        if seq_diff(b, a).to_set().contains(x) {
            assert(seq_diff(b, a).contains(x));
        }
    }
    assert(a.to_set().union(seq_diff(b, a).to_set()) =~= a.to_set().union(b.to_set()));
}

/// The union is the same set whichever of the two sets comes first.
pub proof fn lemma_union_commutes<T>(a: Seq<T>, b: Seq<T>)
    ensures
        (a + seq_diff(b, a)).to_set() == (b + seq_diff(a, b)).to_set(),
{
    lemma_union_as_sets(a, b);
    lemma_union_as_sets(b, a);
    assert(a.to_set().union(b.to_set()) =~= b.to_set().union(a.to_set()));
}

/// The difference of a set with itself yields nothing.
pub proof fn lemma_self_difference_empty<T>(a: Seq<T>)
    ensures
        seq_diff(a, a) == Seq::<T>::empty(),
{
    lemma_seq_diff_membership(a, a);
    if seq_diff(a, a).len() > 0 {
        assert(seq_diff(a, a).contains(seq_diff(a, a)[0]));
    }
    assert(seq_diff(a, a) =~= Seq::<T>::empty());
}

/// What the symmetric-difference cursor yields is, as a set, the union of
/// the two one-sided differences.
pub proof fn lemma_symmetric_difference_is_union<T>(a: Seq<T>, b: Seq<T>)
    ensures
        (seq_diff(a, b) + seq_diff(b, a)).to_set() == seq_diff(a, b).to_set().union(
            seq_diff(b, a).to_set(),
        ),
{
    lemma_concat_to_set(seq_diff(a, b), seq_diff(b, a));
}

} // verus!
