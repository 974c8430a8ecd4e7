//! Trusted interface to `linked_hash_set::LinkedHashSet`, the insertion-ordered
//! set that backs each frequency bucket. A set of keys is modelled by the
//! sequence of its elements in insertion order, oldest first.
use vstd::prelude::*;
use linked_hash_set::LinkedHashSet;

verus! {

#[verifier::external_type_specification]
#[verifier::external_body]
#[verifier::reject_recursive_types(T)]
#[verifier::reject_recursive_types(S)]
pub struct ExLinkedHashSet<T, S>(LinkedHashSet<T, S>);

/// The elements of the set in insertion order, oldest first.
pub uninterp spec fn elems(s: LinkedHashSet<u64>) -> Seq<u64>;

/// Relies on `linked_hash_set::LinkedHashSet::new`: makes an empty set.
#[verifier::external_body]
pub(crate) fn set_new() -> (s: LinkedHashSet<u64>)
    ensures
        elems(s) == Seq::<u64>::empty(),
{
    LinkedHashSet::new()
}

/// Relies on `linked_hash_set::LinkedHashSet::insert`: a value not already
/// present goes to the back of the ordering, and `true` comes back.
#[verifier::external_body]
pub(crate) fn set_insert(s: &mut LinkedHashSet<u64>, k: u64) -> (r: bool)
    requires
        !elems(*old(s)).contains(k),
    ensures
        r,
        elems(*final(s)) == elems(*old(s)).push(k),
{
    s.insert(k)
}

/// Relies on `linked_hash_set::LinkedHashSet::remove`: removes the value if
/// present, keeping the order of the other elements; `true` iff it was there.
#[verifier::external_body]
pub(crate) fn set_remove(s: &mut LinkedHashSet<u64>, k: &u64) -> (r: bool)
    ensures
        r == elems(*old(s)).contains(*k),
        elems(*final(s)) == elems(*old(s)).remove_value(*k),
{
    s.remove(k)
}

/// Relies on `linked_hash_set::LinkedHashSet::pop_front`: removes and returns
/// the oldest element, or returns nothing when the set is empty.
#[verifier::external_body]
pub(crate) fn set_pop_front(s: &mut LinkedHashSet<u64>) -> (r: Option<u64>)
    ensures
        elems(*old(s)).len() == 0 ==> r.is_none() && elems(*final(s)) == elems(*old(s)),
        elems(*old(s)).len() != 0 ==> r.is_some() && r.unwrap() == elems(*old(s))[0]
            && elems(*final(s)) == elems(*old(s)).drop_first(),
{
    s.pop_front()
}

/// Relies on `linked_hash_set::LinkedHashSet::is_empty`.
#[verifier::external_body]
pub(crate) fn set_is_empty(s: &LinkedHashSet<u64>) -> (r: bool)
    ensures
        r == (elems(*s).len() == 0),
{
    s.is_empty()
}

} // verus!
