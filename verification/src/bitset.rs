//! What this crate relies on from `fixedbitset::FixedBitSet`.
//!
//! The contracts of the bit set's functions are not proved. Each restates,
//! over the two abstract functions below, what the source of `fixedbitset`
//! 0.4 does.

use fixedbitset::FixedBitSet;
use vstd::prelude::*;
use vstd::set_lib::{lemma_int_range, lemma_len_subset, set_int_range};

verus! {

/// `fixedbitset::FixedBitSet`, of which nothing is seen but what the
/// functions below say.
#[verifier::external_type_specification]
#[verifier::external_body]
pub struct ExFixedBitSet(fixedbitset::FixedBitSet);

/// The positions at which `FixedBitSet::contains` answers `true`.
pub uninterp spec fn bitset_ones(s: FixedBitSet) -> Set<int>;

/// The number of positions the bit set was made for: what `FixedBitSet::len`
/// returns.
pub uninterp spec fn bitset_len(s: FixedBitSet) -> nat;

/// `FixedBitSet::with_capacity`: `bits` positions, all clear.
pub assume_specification[ FixedBitSet::with_capacity ](bits: usize) -> (s: FixedBitSet)
    ensures
        bitset_ones(s) == Set::<int>::empty(),
        bitset_len(s) == bits,
;

/// `FixedBitSet::contains`: whether the bit at `bit` is set; it reads the
/// stored blocks and never fails, whatever `bit` is.
pub assume_specification[ FixedBitSet::contains ](s: &FixedBitSet, bit: usize) -> (b: bool)
    ensures
        b == bitset_ones(*s).contains(bit as int),
;

/// `FixedBitSet::insert`: sets one bit. The outside function panics when
/// `bit` is not below the length, so that is required here.
pub assume_specification[ FixedBitSet::insert ](s: &mut FixedBitSet, bit: usize)
    requires
        bit < bitset_len(*old(s)),
    ensures
        bitset_ones(*final(s)) == bitset_ones(*old(s)).insert(bit as int),
        bitset_len(*final(s)) == bitset_len(*old(s)),
;

/// `FixedBitSet::intersect_with`: block by block `and`; blocks that `other`
/// lacks are cleared, the length stays.
pub assume_specification[ FixedBitSet::intersect_with ](s: &mut FixedBitSet, other: &FixedBitSet)
    ensures
        bitset_ones(*final(s)) == bitset_ones(*old(s)).intersect(bitset_ones(*other)),
        bitset_len(*final(s)) == bitset_len(*old(s)),
;

/// `FixedBitSet::union_with`: grows to the longer of the two lengths, then
/// block by block `or`.
pub assume_specification[ FixedBitSet::union_with ](s: &mut FixedBitSet, other: &FixedBitSet)
    ensures
        bitset_ones(*final(s)) == bitset_ones(*old(s)).union(bitset_ones(*other)),
        bitset_len(*final(s)) == if bitset_len(*other) >= bitset_len(*old(s)) {
            bitset_len(*other)
        } else {
            bitset_len(*old(s))
        },
;

/// `FixedBitSet::symmetric_difference_with`: grows to the longer of the two
/// lengths, then block by block `xor`.
pub assume_specification[ FixedBitSet::symmetric_difference_with ](
    s: &mut FixedBitSet,
    other: &FixedBitSet,
)
    ensures
        forall|i: int|
            #![auto]
            bitset_ones(*final(s)).contains(i) == (bitset_ones(*old(s)).contains(i)
                != bitset_ones(*other).contains(i)),
        bitset_len(*final(s)) == if bitset_len(*other) >= bitset_len(*old(s)) {
            bitset_len(*other)
        } else {
            bitset_len(*old(s))
        },
;

/// `FixedBitSet::is_subset`: whether every bit set in `s` is set in `other`.
pub assume_specification[ FixedBitSet::is_subset ](s: &FixedBitSet, other: &FixedBitSet) -> (b:
    bool)
    ensures
        b == bitset_ones(*s).subset_of(bitset_ones(*other)),
;

/// `Clone` for `FixedBitSet`: the blocks are copied and the length kept.
pub assume_specification[ <FixedBitSet as Clone>::clone ](s: &FixedBitSet) -> (r: FixedBitSet)
    ensures
        bitset_ones(r) == bitset_ones(*s),
        bitset_len(r) == bitset_len(*s),
;

/// `FixedBitSet::count_ones` over the full range `..`: the number of set bits
/// among the positions below the length.
#[verifier::external_body]
pub(crate) fn count_ones_all(s: &FixedBitSet) -> (n: usize)
    ensures
        n == bitset_ones(*s).intersect(Set::new(|i: int| 0 <= i < bitset_len(*s))).len(),
{
    s.count_ones(..)
}

/// `FixedBitSet::toggle_range` over the full range `..`: every position below
/// the length is inverted, the others are left as they were.
#[verifier::external_body]
pub(crate) fn toggle_all(s: &mut FixedBitSet)
    ensures
        forall|i: int|
            #![auto]
            bitset_ones(*final(s)).contains(i) == if 0 <= i < bitset_len(*old(s)) {
                !bitset_ones(*old(s)).contains(i)
            } else {
                bitset_ones(*old(s)).contains(i)
            },
        bitset_len(*final(s)) == bitset_len(*old(s)),
{
    s.toggle_range(..)
}

/// Whether every set bit lies below the length.
pub open spec fn bitset_bounded(s: FixedBitSet) -> bool {
    forall|i: int| #[trigger] bitset_ones(s).contains(i) ==> 0 <= i < bitset_len(s)
}

/// A bit set that holds nothing beyond its length holds finitely many
/// positions, no more than its length, and all of them are counted.
pub proof fn lemma_bounded_finite(s: FixedBitSet)
    requires
        bitset_bounded(s),
    ensures
        bitset_ones(s).finite(),
        bitset_ones(s).len() <= bitset_len(s),
        bitset_ones(s).intersect(Set::new(|i: int| 0 <= i < bitset_len(s))) == bitset_ones(s),
{
    let range = set_int_range(0, bitset_len(s) as int);
    lemma_int_range(0, bitset_len(s) as int);
    assert(bitset_ones(s).subset_of(range));
    lemma_len_subset(bitset_ones(s), range);
    assert(bitset_ones(s).intersect(Set::new(|i: int| 0 <= i < bitset_len(s))) =~= bitset_ones(s));
}

} // verus!
