//! Sets of row indices, held in `bit_set::BitSet`.
use vstd::prelude::*;
use bit_set::BitSet;

verus! {

/// `bit_set::BitSet`, a set of `usize` values held as a bit vector; opaque
/// here, and read only through `bitset_members`.
#[verifier::external_type_specification]
#[verifier::external_body]
#[verifier::reject_recursive_types(B)]
pub struct ExBitSet<B>(BitSet<B>);

/// The members of a `BitSet`.
pub uninterp spec fn bitset_members(b: BitSet) -> Set<usize>;

/// `BitSet::with_capacity`: a set with no members (the capacity only sizes
/// the storage).
#[verifier::external_body]
pub(crate) fn bitset_with_capacity(nbits: usize) -> (b: BitSet)
    ensures
        bitset_members(b) == Set::<usize>::empty(),
{
    BitSet::with_capacity(nbits)
}

/// `BitSet::insert`: adds `value` and says whether it was new.
#[verifier::external_body]
pub(crate) fn bitset_insert(b: &mut BitSet, value: usize) -> (r: bool)
    ensures
        bitset_members(*final(b)) == bitset_members(*old(b)).insert(value),
        r == !bitset_members(*old(b)).contains(value),
{
    b.insert(value)
}

/// `BitSet::len`: the number of members.
#[verifier::external_body]
pub(crate) fn bitset_len(b: &BitSet) -> (r: usize)
    ensures
        r == bitset_members(*b).len(),
{
    b.len()
}

/// `BitSet::intersection`, collected into a `BitSet`: the common members.
#[verifier::external_body]
pub(crate) fn bitset_intersection(a: &BitSet, b: &BitSet) -> (r: BitSet)
    ensures
        bitset_members(r) == bitset_members(*a).intersect(bitset_members(*b)),
{
    a.intersection(b).collect()
}

/// `BitSet::clone`: a set with the same members.
#[verifier::external_body]
pub(crate) fn bitset_clone(b: &BitSet) -> (r: BitSet)
    ensures
        bitset_members(r) == bitset_members(*b),
{
    b.clone()
}

} // verus!
