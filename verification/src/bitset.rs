//! Contracts for the `fixedbitset` crate.
//!
//! A `FixedBitSet` is opaque to the verifier. Everything that the rest of the
//! library knows about one is stated here, over two names: the set of enabled
//! bits and the width in bits. None of the contracts in this file is proved;
//! each one restates what the source of `fixedbitset` does.
use fixedbitset::FixedBitSet;
use vstd::prelude::*;

verus! {

/// `fixedbitset::FixedBitSet`, a vector of blocks and a length in bits.
#[verifier::external_type_specification]
#[verifier::external_body]
pub struct ExFixedBitSet(fixedbitset::FixedBitSet);

/// The positions of the enabled bits of `s`.
pub uninterp spec fn bits_of(s: FixedBitSet) -> Set<int>;

/// The number of bits that `s` was made (or grown) to hold, enabled or not.
pub uninterp spec fn width_of(s: FixedBitSet) -> nat;

/// Every enabled bit of `s` lies below `n`.
pub open spec fn bits_below(s: FixedBitSet, n: int) -> bool {
    forall|b: int| #[trigger] bits_of(s).contains(b) ==> 0 <= b < n
}

/// `FixedBitSet::with_capacity` allocates zeroed blocks: the result has the
/// asked width and no enabled bit.
pub assume_specification[ FixedBitSet::with_capacity ](bits: usize) -> (s: FixedBitSet)
    ensures
        width_of(s) == bits,
        bits_of(s) == Set::<int>::empty(),
;

/// `FixedBitSet::len` returns the width in bits, not the number of enabled bits.
pub assume_specification[ FixedBitSet::len ](s: &FixedBitSet) -> (n: usize)
    ensures
        n == width_of(*s),
;

/// `FixedBitSet::contains` tests one bit; a position beyond the blocks is
/// reported as disabled, so the call is defined for every `bit`.
pub assume_specification[ FixedBitSet::contains ](s: &FixedBitSet, bit: usize) -> (r: bool)
    ensures
        r == bits_of(*s).contains(bit as int),
;

/// `FixedBitSet::insert` enables one bit and panics when `bit` is not below
/// the width.
pub assume_specification[ FixedBitSet::insert ](s: &mut FixedBitSet, bit: usize)
    requires
        bit < width_of(*old(s)),
    ensures
        width_of(*final(s)) == width_of(*old(s)),
        bits_of(*final(s)) == bits_of(*old(s)).insert(bit as int),
;

/// `FixedBitSet::set` enables or disables one bit and panics when `bit` is not
/// below the width.
pub assume_specification[ FixedBitSet::set ](s: &mut FixedBitSet, bit: usize, enabled: bool)
    requires
        bit < width_of(*old(s)),
    ensures
        width_of(*final(s)) == width_of(*old(s)),
        bits_of(*final(s)) == if enabled {
            bits_of(*old(s)).insert(bit as int)
        } else {
            bits_of(*old(s)).remove(bit as int)
        },
;

/// `FixedBitSet::clear` zeroes every block and keeps the width.
pub assume_specification[ FixedBitSet::clear ](s: &mut FixedBitSet)
    ensures
        width_of(*final(s)) == width_of(*old(s)),
        bits_of(*final(s)) == Set::<int>::empty(),
;

/// `FixedBitSet::union_with` first grows `s` to the width of `other` when
/// that is at least its own, then ors the blocks pairwise.
pub assume_specification[ FixedBitSet::union_with ](s: &mut FixedBitSet, other: &FixedBitSet)
    ensures
        width_of(*final(s)) == if width_of(*other) >= width_of(*old(s)) {
            width_of(*other)
        } else {
            width_of(*old(s))
        },
        bits_of(*final(s)) == bits_of(*old(s)).union(bits_of(*other)),
;

/// `FixedBitSet::difference_with` clears in `s` every bit enabled in `other`
/// and never changes the width.
pub assume_specification[ FixedBitSet::difference_with ](s: &mut FixedBitSet, other: &FixedBitSet)
    ensures
        width_of(*final(s)) == width_of(*old(s)),
        bits_of(*final(s)) == bits_of(*old(s)).difference(bits_of(*other)),
;

/// `<FixedBitSet as Clone>::clone` copies the blocks and the length.
pub assume_specification[ <FixedBitSet as Clone>::clone ](s: &FixedBitSet) -> (r: FixedBitSet)
    ensures
        width_of(r) == width_of(*s),
        bits_of(r) == bits_of(*s),
;

/// `FixedBitSet::set_range` on the half-open range `lo..hi`: enables or
/// disables exactly those bits. It panics unless `lo <= hi <= width`.
#[verifier::external_body]
pub(crate) fn set_bit_range(s: &mut FixedBitSet, lo: usize, hi: usize, enabled: bool)
    requires
        lo <= hi <= width_of(*old(s)),
    ensures
        width_of(*final(s)) == width_of(*old(s)),
        forall|b: int|
            #[trigger] bits_of(*final(s)).contains(b) == if lo <= b < hi {
                enabled
            } else {
                bits_of(*old(s)).contains(b)
            },
{
    s.set_range(lo..hi, enabled);
}

/// `FixedBitSet::count_ones` over the whole set: the number of enabled bits.
/// The count reads the bits below the length only, so it is the number of
/// all enabled bits where none stands at or beyond the length.
#[verifier::external_body]
pub(crate) fn count_bits(s: &FixedBitSet) -> (r: usize)
    requires
        bits_below(*s, width_of(*s) as int),
    ensures
        r == bits_of(*s).len(),
{
    s.count_ones(..)
}

/// `FixedBitSet::ones`, collected: the iterator walks the blocks from the
/// first to the last and each block from its lowest bit up, so the enabled
/// positions come out in strictly increasing order, each once.
#[verifier::external_body]
pub(crate) fn ones_of(s: &FixedBitSet) -> (r: Vec<usize>)
    ensures
        forall|i: int, j: int| 0 <= i < j < r@.len() ==> r@[i] < r@[j],
        forall|i: int| 0 <= i < r@.len() ==> bits_of(*s).contains(#[trigger] r@[i] as int),
        forall|b: int|
            bits_of(*s).contains(b) ==> exists|i: int| 0 <= i < r@.len() && #[trigger] r@[i] == b,
{
    s.ones().collect()
}

/// The first item of `FixedBitSet::ones`: the lowest enabled position, or
/// `None` when no bit is enabled.
#[verifier::external_body]
pub(crate) fn lowest_bit(s: &FixedBitSet) -> (r: Option<usize>)
    ensures
        match r {
            Some(b) => bits_of(*s).contains(b as int) && forall|i: int|
                bits_of(*s).contains(i) ==> b <= i,
            None => forall|i: int| !bits_of(*s).contains(i),
        },
{
    s.ones().next()
}

} // verus!
