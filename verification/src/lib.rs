//! Ordered, linear-scan containers: an association map (`map::VecMap`) and a
//! set of unique elements (`set::VecSet`), both backed by a plain growable
//! sequence and searched by equality instead of hashing.
//!
//! Lookups walk the backing sequence front to back, so every operation is
//! O(n); in exchange the containers need no hasher, keep a predictable
//! iteration order (insertion order, with overwritten keys moved to the end),
//! and stay cheap for small element counts.
use vstd::prelude::*;

pub mod map;
pub mod set;
mod storage;

verus! {

use vstd::std_specs::cmp::PartialEqSpec;

/// Executable `==` on `T` decides logical equality.
///
/// The containers compare keys and elements with `PartialEq::eq`. Their
/// contracts describe the stored data through logical equality on values, so
/// they ask, through this predicate, that the two notions agree: `eq` obeys
/// its specification, and that specification is logical equality. Integer
/// and boolean types satisfy this; a caller's own key type does when its
/// `PartialEq` is structural.
pub open spec fn eq_decides<T: PartialEq>() -> bool {
    &&& <T as PartialEqSpec>::obeys_eq_spec()
    &&& forall|a: T, b: T| #[trigger] a.eq_spec(&b) <==> a == b
}

/// The elements of `s` at the positions where `keep` is true, in order: what
/// a filtering pass over `s` leaves behind.
pub open spec fn masked<A>(s: Seq<A>, keep: Seq<bool>) -> Seq<A>
    decreases s.len(),
{
    if s.len() == 0 {
        Seq::empty()
    } else if keep.len() == s.len() && keep.last() {
        masked(s.drop_last(), keep.drop_last()).push(s.last())
    } else {
        masked(s.drop_last(), keep.drop_last())
    }
}

} // verus!
