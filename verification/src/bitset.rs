//! Trusted interface to `fixedbitset::FixedBitSet`.
//!
//! The resolved-set machinery stores which nodes of a graph are included as a
//! fixed-capacity bitset. The contents of a bitset are modelled as the set of
//! indices whose bits are enabled (`bits`), and its capacity in bits as
//! `bit_capacity`. Every contract below states what the crate's source shows
//! for the corresponding method.

use vstd::prelude::*;
use fixedbitset::FixedBitSet;

verus! {

#[verifier::external_type_specification]
#[verifier::external_body]
pub struct ExFixedBitSet(FixedBitSet);

/// The set of bit indices that are enabled in `b`.
pub uninterp spec fn bits(b: FixedBitSet) -> Set<int>;

/// The capacity in bits that `b` was created or grown to.
pub uninterp spec fn bit_capacity(b: FixedBitSet) -> nat;

/// Holds of every bitset this crate builds: the enabled bits form a finite
/// set of in-capacity indices.
pub open spec fn bits_wf(b: FixedBitSet) -> bool {
    &&& bits(b).finite()
    &&& forall|i: int| bits(b).contains(i) ==> 0 <= i < bit_capacity(b)
}

/// Relies on `FixedBitSet::with_capacity`: a fresh set with all bits clear.
#[verifier::external_body]
pub fn bs_new(nbits: usize) -> (r: FixedBitSet)
    ensures
        bits(r) == Set::<int>::empty(),
        bit_capacity(r) == nbits,
{
    FixedBitSet::with_capacity(nbits)
}

/// Relies on `FixedBitSet::clone`: an identical copy.
#[verifier::external_body]
pub fn bs_clone(b: &FixedBitSet) -> (r: FixedBitSet)
    ensures
        bits(r) == bits(*b),
        bit_capacity(r) == bit_capacity(*b),
{
    b.clone()
}

/// Relies on `FixedBitSet::contains`: true exactly for enabled bits; indices
/// beyond the capacity are reported as disabled.
#[verifier::external_body]
pub fn bs_contains(b: &FixedBitSet, bit: usize) -> (r: bool)
    ensures
        r == bits(*b).contains(bit as int),
{
    b.contains(bit)
}

/// Relies on `FixedBitSet::insert`: enables one bit. The crate panics on an
/// out-of-capacity index, so that case is excluded.
#[verifier::external_body]
pub fn bs_insert(b: &mut FixedBitSet, bit: usize)
    requires
        bit < bit_capacity(*old(b)),
    ensures
        bits(*final(b)) == bits(*old(b)).insert(bit as int),
        bit_capacity(*final(b)) == bit_capacity(*old(b)),
{
    b.insert(bit)
}

/// Relies on `FixedBitSet::count_ones` over the full range: the number of
/// enabled bits, which is the cardinality of the finite contents.
#[verifier::external_body]
pub fn bs_count_ones(b: &FixedBitSet) -> (r: usize)
    requires
        bits(*b).finite(),
    ensures
        r == bits(*b).len(),
{
    b.count_ones(..)
}

/// Relies on `FixedBitSet::union_with`: pointwise or; the receiver grows to
/// the larger capacity.
#[verifier::external_body]
pub fn bs_union_with(b: &mut FixedBitSet, other: &FixedBitSet)
    ensures
        bits(*final(b)) == bits(*old(b)).union(bits(*other)),
        bit_capacity(*final(b)) == if bit_capacity(*other) >= bit_capacity(*old(b)) {
            bit_capacity(*other)
        } else {
            bit_capacity(*old(b))
        },
{
    b.union_with(other)
}

/// Relies on `FixedBitSet::intersect_with`: pointwise and; the receiver's
/// capacity is unchanged.
#[verifier::external_body]
pub fn bs_intersect_with(b: &mut FixedBitSet, other: &FixedBitSet)
    ensures
        bits(*final(b)) == bits(*old(b)).intersect(bits(*other)),
        bit_capacity(*final(b)) == bit_capacity(*old(b)),
{
    b.intersect_with(other)
}

/// Relies on `FixedBitSet::symmetric_difference_with`: pointwise xor; the
/// receiver grows to the larger capacity.
#[verifier::external_body]
pub fn bs_symmetric_difference_with(b: &mut FixedBitSet, other: &FixedBitSet)
    ensures
        bits(*final(b)) == bits(*old(b)).union(bits(*other)).difference(
            bits(*old(b)).intersect(bits(*other)),
        ),
        bit_capacity(*final(b)) == if bit_capacity(*other) >= bit_capacity(*old(b)) {
            bit_capacity(*other)
        } else {
            bit_capacity(*old(b))
        },
{
    b.symmetric_difference_with(other)
}

/// Relies on `FixedBitSet::difference` collected through the crate's
/// `FromIterator` impl: the bits of `b` that are not in `other`.
#[verifier::external_body]
pub fn bs_difference(b: &FixedBitSet, other: &FixedBitSet) -> (r: FixedBitSet)
    ensures
        bits(r) == bits(*b).difference(bits(*other)),
        forall|i: int| bits(r).contains(i) ==> 0 <= i < bit_capacity(r),
{
    b.difference(other).collect()
}

} // verus!
