//! Trusted interface to indexmap's insertion-ordered set, used where a new
//! parent list is assembled in order while duplicates are collapsed.

use vstd::prelude::*;

use indexmap::IndexSet;

verus! {

#[verifier::external_type_specification]
#[verifier::external_body]
#[verifier::reject_recursive_types(T)]
#[verifier::reject_recursive_types(S)]
pub struct ExIndexSet<T, S>(IndexSet<T, S>);

/// The ids an insertion-ordered id set holds, in insertion order.
pub uninterp spec fn idxset_elems(s: IndexSet<usize>) -> Seq<usize>;

/// Relies on indexmap's IndexSet::new: creates an empty set.
#[verifier::external_body]
pub(crate) fn idxset_new() -> (r: IndexSet<usize>)
    ensures
        idxset_elems(r) == Seq::<usize>::empty(),
{
    IndexSet::new()
}

/// Relies on indexmap's IndexSet::insert: a missing value is appended at the
/// end of the order and `true` comes back; an existing value keeps its place
/// and `false` comes back.
#[verifier::external_body]
pub(crate) fn idxset_insert(s: &mut IndexSet<usize>, v: usize) -> (r: bool)
    ensures
        r == !idxset_elems(*old(s)).contains(v),
        idxset_elems(*final(s)) == (if idxset_elems(*old(s)).contains(v) {
            idxset_elems(*old(s))
        } else {
            idxset_elems(*old(s)).push(v)
        }),
{
    s.insert(v)
}

/// Relies on indexmap's IndexSet::len: the number of held values.
#[verifier::external_body]
pub(crate) fn idxset_len(s: &IndexSet<usize>) -> (r: usize)
    ensures
        r == idxset_elems(*s).len(),
{
    s.len()
}

/// Relies on indexmap's IndexSet::get_index: the value at one position of the
/// insertion order; positions below the length are always present.
#[verifier::external_body]
pub(crate) fn idxset_get(s: &IndexSet<usize>, i: usize) -> (r: usize)
    requires
        i < idxset_elems(*s).len(),
    ensures
        r == idxset_elems(*s)[i as int],
{
    *s.get_index(i).unwrap()
}

} // verus!
