//! What the verified code knows of the fixed-size bit sets it keeps.
use fixedbitset::FixedBitSet;
use vstd::prelude::*;

verus! {

/// The bit set of `fixedbitset`. Nothing is known of a value of it but what the
/// functions below say.
#[verifier::external_type_specification]
#[verifier::external_body]
pub struct ExFixedBitSet(FixedBitSet);

/// The positions of the bits that are enabled in a bit set.
pub uninterp spec fn enabled_bits(set: FixedBitSet) -> Set<int>;

/// The number of bits that a bit set was made for.
pub uninterp spec fn bit_length(set: FixedBitSet) -> nat;

/// `FixedBitSet::with_capacity` makes a set of `bits` bits, all of them clear.
pub assume_specification[ FixedBitSet::with_capacity ](bits: usize) -> (set: FixedBitSet)
    ensures
        enabled_bits(set) == Set::<int>::empty(),
        bit_length(set) == bits,
;

/// `FixedBitSet::insert` enables one bit and leaves the others and the length
/// as they were. It panics on a bit at or beyond the length.
pub assume_specification[ FixedBitSet::insert ](set: &mut FixedBitSet, bit: usize)
    requires
        bit < bit_length(*old(set)),
    ensures
        enabled_bits(*final(set)) == enabled_bits(*old(set)).insert(bit as int),
        bit_length(*final(set)) == bit_length(*old(set)),
;

/// `FixedBitSet::contains` tells whether a bit is enabled; a bit beyond the
/// length counts as clear.
pub assume_specification[ FixedBitSet::contains ](set: &FixedBitSet, bit: usize) -> (on: bool)
    ensures
        on == enabled_bits(*set).contains(bit as int),
;

} // verus!
