//! What the library takes on trust about `fixedbitset::FixedBitSet`.
//!
//! Nothing in this file is proved. Each contract restates what the source of
//! the `fixedbitset` crate shows of one of its functions, in terms of two
//! names: [`len_of`], the number of bits that a set was made for, and
//! [`ones_of`], the positions at which its blocks hold a one. The crate lets
//! a caller write to the blocks directly, so a one may lie past the end of a
//! set; no contract here says that none does.
use fixedbitset::FixedBitSet;
use vstd::prelude::*;

verus! {

/// `fixedbitset::FixedBitSet`: a fixed number of bits, each set or clear.
#[verifier::external_type_specification]
#[verifier::external_body]
pub struct ExFixedBitSet(FixedBitSet);

/// The length of `b` in bits: what `b.len()` returns.
pub uninterp spec fn len_of(b: FixedBitSet) -> nat;

/// The positions at which the blocks of `b` hold a one.
pub uninterp spec fn ones_of(b: FixedBitSet) -> Set<int>;

/// `FixedBitSet::with_capacity`: a set of `bits` bits, all clear.
pub assume_specification[ FixedBitSet::with_capacity ](bits: usize) -> (b: FixedBitSet)
    ensures
        len_of(b) == bits,
        ones_of(b) == Set::<int>::empty(),
;

/// `FixedBitSet::contains`: whether `bit` lies within the set and is a one.
pub assume_specification[ FixedBitSet::contains ](b: &FixedBitSet, bit: usize) -> (r: bool)
    ensures
        r == (bit < len_of(*b) && ones_of(*b).contains(bit as int)),
;

/// `FixedBitSet::insert`: makes `bit` a one and leaves the others. It panics
/// on a bit past the end, which `requires` rules out.
pub assume_specification[ FixedBitSet::insert ](b: &mut FixedBitSet, bit: usize)
    requires
        bit < len_of(*old(b)),
    ensures
        len_of(*final(b)) == len_of(*old(b)),
        ones_of(*final(b)) == ones_of(*old(b)).insert(bit as int),
;

/// `FixedBitSet::set`: makes `bit` a one if `enabled` and a zero if not, and
/// leaves the others. It panics on a bit past the end, which `requires` rules
/// out.
pub assume_specification[ FixedBitSet::set ](b: &mut FixedBitSet, bit: usize, enabled: bool)
    requires
        bit < len_of(*old(b)),
    ensures
        len_of(*final(b)) == len_of(*old(b)),
        ones_of(*final(b)) == (if enabled {
            ones_of(*old(b)).insert(bit as int)
        } else {
            ones_of(*old(b)).remove(bit as int)
        }),
;

/// `Clone::clone` of a `FixedBitSet`: a set of the same length with the same
/// blocks.
pub assume_specification[ <FixedBitSet as Clone>::clone ](b: &FixedBitSet) -> (r: FixedBitSet)
    ensures
        len_of(r) == len_of(*b),
        ones_of(r) == ones_of(*b),
;

/// `FixedBitSet::set_range` on the range `start..end`: makes every bit in
/// the range a one if `enabled` and a zero if not, and leaves the others. It
/// panics on a range that is reversed or goes past the end, which `requires`
/// rules out.
#[verifier::external_body]
pub(crate) fn set_range(b: &mut FixedBitSet, start: usize, end: usize, enabled: bool)
    requires
        start <= end <= len_of(*old(b)),
    ensures
        len_of(*final(b)) == len_of(*old(b)),
        ones_of(*final(b)) == Set::new(
            |i: int|
                if start <= i < end {
                    enabled
                } else {
                    ones_of(*old(b)).contains(i)
                },
        ),
{
    b.set_range(start..end, enabled)
}

/// `FixedBitSet::ones`, collected: the positions at which the blocks hold a
/// one, in ascending order.
#[verifier::external_body]
pub(crate) fn ones(b: &FixedBitSet) -> (list: Vec<usize>)
    ensures
        forall|j: int, k: int| 0 <= j < k < list@.len() ==> list@[j] < list@[k],
        forall|i: int|
            ones_of(*b).contains(i) <==> exists|j: int|
                0 <= j < list@.len() && #[trigger] list@[j] == i,
{
    b.ones().collect()
}

} // verus!
