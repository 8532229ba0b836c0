//! The disjoint-set collection of the `partitions` crate, which holds the state
//! of the process, and what is taken of it on trust.
//!
//! Verus sees nothing inside a `PartitionVec`. Two names stand for what one
//! holds, and each method that the library calls has a wrapper whose contract
//! says, over those names, what the method does.

use crate::partition::{join, singletons};
use partitions::PartitionVec;
use vstd::prelude::*;

verus! {

/// The collection of the `partitions` crate: a vector whose elements are
/// divided into sets. Verus sees nothing inside it.
#[verifier::external_type_specification]
#[verifier::external_body]
#[verifier::reject_recursive_types(T)]
pub struct ExPartitionVec<T>(PartitionVec<T>);

/// The sets of the collection in the order in which `all_sets` yields them,
/// which is the order of their least members, each as the set of the indices
/// that it holds.
pub uninterp spec fn blocks_of(p: PartitionVec<()>) -> Seq<Set<nat>>;

/// The number of elements of the collection, which `len` returns.
pub uninterp spec fn len_of(p: PartitionVec<()>) -> nat;

/// `PartitionVec::from` on a vector.
///
/// Trusted: the collection has the vector's length, and every element starts
/// in a set of its own.
#[verifier::external_body]
pub(crate) fn from_units(units: Vec<()>) -> (p: PartitionVec<()>)
    ensures
        len_of(p) == units@.len(),
        blocks_of(p) == singletons(units@.len()),
{
    PartitionVec::from(units)
}

/// `PartitionVec::amount_of_sets`.
///
/// Trusted: it returns the number of sets.
#[verifier::external_body]
pub(crate) fn amount_of_sets(p: &PartitionVec<()>) -> (count: usize)
    ensures
        count == blocks_of(*p).len(),
{
    p.amount_of_sets()
}

/// The index that comes first out of the set at place `set` of
/// `PartitionVec::all_sets`, both taken with the iterators' `nth`.
///
/// Trusted: it is a member of that set. Which member the crate leaves open.
/// Below the number of sets `all_sets` has a set at that place, and no set is
/// empty, which is what `requires` asks for.
#[verifier::external_body]
pub(crate) fn first_in_set(p: &PartitionVec<()>, set: usize) -> (member: usize)
    requires
        set < blocks_of(*p).len(),
    ensures
        blocks_of(*p)[set as int].contains(member as nat),
{
    p.all_sets().nth(set).unwrap().nth(0).unwrap().0
}

/// `PartitionVec::union`.
///
/// Trusted: the sets of `a` and of `b` become one set and the others stay, so
/// that in the order of least members the joined set stands where the earlier
/// of the two stood; nothing changes where `a` and `b` share a set. The method
/// panics on an index that the collection does not have, which `requires`
/// leaves out.
#[verifier::external_body]
pub(crate) fn union(p: &mut PartitionVec<()>, a: usize, b: usize)
    requires
        a < len_of(*old(p)),
        b < len_of(*old(p)),
    ensures
        len_of(*final(p)) == len_of(*old(p)),
        blocks_of(*final(p)) == join(blocks_of(*old(p)), a as nat, b as nat),
{
    p.union(a, b)
}

/// `Clone::clone` of a `PartitionVec`.
///
/// Trusted: the copy has the same elements in the same sets.
#[verifier::external_body]
pub(crate) fn clone_partition(p: &PartitionVec<()>) -> (copy: PartitionVec<()>)
    ensures
        len_of(copy) == len_of(*p),
        blocks_of(copy) == blocks_of(*p),
{
    p.clone()
}

} // verus!
