//! A stack of bit sets of one width, addressed by row.
use crate::bitset::{bits_below, bits_of, ones_of, set_bit_range, width_of};
use fixedbitset::FixedBitSet;
use vstd::prelude::*;

verus! {

#[derive(Debug)]
pub struct MultiBitSet {
    /// The underlying bitsets in this data structure
    pub data: Vec<FixedBitSet>,
    /// The number of bits in each bitset
    pub n: usize,
    /// The number of bitsets
    pub m: usize,
}

impl MultiBitSet {
    /// The enabled bits of row `i`.
    pub open spec fn row(&self, i: int) -> Set<int> {
        bits_of(self.data@[i])
    }

    /// There are `m` rows, each `n` bits wide, and no row holds a bit at or
    /// beyond `n`.
    pub open spec fn wf(&self) -> bool {
        &&& self.data@.len() == self.m
        &&& forall|i: int| 0 <= i < self.m ==> width_of(#[trigger] self.data@[i]) == self.n
        &&& forall|i: int| 0 <= i < self.m ==> bits_below(#[trigger] self.data@[i], self.n as int)
    }

    /// Whether `self` is `before` with row `i` replaced by `bits` and every
    /// other row untouched.
    pub open spec fn only_row_changed(&self, before: &Self, i: int, bits: Set<int>) -> bool {
        &&& self.wf()
        &&& self.n == before.n
        &&& self.m == before.m
        &&& self.row(i) =~= bits
        &&& forall|r: int| 0 <= r < self.m && r != i ==> #[trigger] self.data@[r] == before.data@[r]
        &&& forall|r: int| 0 <= r < self.m && r != i ==> #[trigger] self.row(r) == before.row(r)
    }

    /// `m` empty rows of `n` bits.
    pub fn new(n: usize, m: usize) -> (r: Self)
        ensures
            r.wf(),
            r.n == n,
            r.m == m,
            forall|i: int| 0 <= i < m ==> (#[trigger] r.row(i)) == Set::<int>::empty(),
    {
        let mut data: Vec<FixedBitSet> = Vec::with_capacity(m);
        let mut k: usize = 0;
        while k < m
            invariant
                k <= m,
                data@.len() == k,
                forall|i: int| 0 <= i < k ==> width_of(#[trigger] data@[i]) == n,
                forall|i: int| 0 <= i < k ==> bits_of(#[trigger] data@[i]) == Set::<int>::empty(),
            decreases m - k,
        {
            data.push(FixedBitSet::with_capacity(n));
            k += 1;
        }
        Self { data, n, m }
    }

    /// Returns the number of bits in each bitset
    pub fn n(&self) -> (r: usize)
        ensures
            r == self.n,
    {
        self.n
    }

    /// Returns the number of bitsets
    pub fn len(&self) -> (r: usize)
        ensures
            r == self.m,
    {
        self.m
    }

    /// Returns the total number of bits in this data structure
    pub fn bitsize(&self) -> (r: usize)
        requires
            self.n * self.m <= usize::MAX,
        ensures
            r == self.n * self.m,
    {
        self.n * self.m
    }

    /// Returns a reference to the bitset at index `i`
    pub fn get_row(&self, i: usize) -> (r: &FixedBitSet)
        requires
            self.wf(),
            i < self.m,
        ensures
            bits_of(*r) == self.row(i as int),
            width_of(*r) == self.n,
            bits_below(*r, self.n as int),
    {
        &self.data[i]
    }

    /// The enabled bits of row `i`, in increasing order.
    pub fn ones(&self, i: usize) -> (r: Vec<usize>)
        requires
            self.wf(),
            i < self.m,
        ensures
            forall|a: int, b: int| 0 <= a < b < r@.len() ==> r@[a] < r@[b],
            forall|a: int| 0 <= a < r@.len() ==> self.row(i as int).contains(#[trigger] r@[a] as int),
            forall|b: int|
                self.row(i as int).contains(b) ==> exists|a: int|
                    0 <= a < r@.len() && #[trigger] r@[a] == b,
    {
        ones_of(&self.data[i])
    }

    /// Clears the bitset at index `i`
    pub fn clear(&mut self, i: usize)
        requires
            old(self).wf(),
            i < old(self).m,
        ensures
            final(self).only_row_changed(old(self), i as int, Set::<int>::empty()),
    {
        self.data[i].clear();
    }

    /// Sets the bit at index `j` in the bitset at index `i`
    pub fn set(&mut self, i: usize, j: usize, enabled: bool)
        requires
            old(self).wf(),
            i < old(self).m,
            j < old(self).n,
        ensures
            final(self).only_row_changed(
                old(self),
                i as int,
                if enabled {
                    old(self).row(i as int).insert(j as int)
                } else {
                    old(self).row(i as int).remove(j as int)
                },
            ),
    {
        self.data[i].set(j, enabled);
    }

    /// Performs an inplace union of the bitset at index `i` with an external
    /// bitset `ext`, which is no wider than the rows.
    pub fn inplace_external_union(&mut self, i: usize, ext: &FixedBitSet)
        requires
            old(self).wf(),
            i < old(self).m,
            width_of(*ext) <= old(self).n,
            bits_below(*ext, old(self).n as int),
        ensures
            final(self).only_row_changed(
                old(self),
                i as int,
                old(self).row(i as int).union(bits_of(*ext)),
            ),
    {
        self.data[i].union_with(ext);
    }

    /// Performs an inplace difference of the bitsets at indices `i` with an external bitset `ext`
    pub fn inplace_external_difference(&mut self, i: usize, ext: &FixedBitSet)
        requires
            old(self).wf(),
            i < old(self).m,
        ensures
            final(self).only_row_changed(
                old(self),
                i as int,
                old(self).row(i as int).difference(bits_of(*ext)),
            ),
    {
        self.data[i].difference_with(ext);
    }

    /// Returns a mutable reference to the bitsets at indices `i` and `j`
    ///
    /// The returned references are ordered such that the first reference is the one that will be
    /// operated on
    fn mutable_references(&mut self, i: usize, j: usize) -> (r: (&mut FixedBitSet, &mut FixedBitSet))
        requires
            i < old(self).data@.len(),
            j < old(self).data@.len(),
            i != j,
        ensures
            *r.0 == old(self).data@[i as int],
            *r.1 == old(self).data@[j as int],
            final(self).data@ == old(self).data@.update(i as int, *final(r.0)).update(
                j as int,
                *final(r.1),
            ),
            final(self).n == old(self).n,
            final(self).m == old(self).m,
    {
        let mid = if i < j {
            i
        } else {
            j
        };
        let (left, right) = self.data.as_mut_slice().split_at_mut(mid + 1);
        if i < j {
            // operate right into left
            (&mut left[mid], &mut right[j - mid - 1])
        } else {
            // operate left into right
            (&mut right[i - mid - 1], &mut left[mid])
        }
    }

    /// Performs an inplace union of the bitsets at indices `i` and `j` onto the bitset at index `i`
    pub fn inplace_union(&mut self, i: usize, j: usize)
        requires
            old(self).wf(),
            i < old(self).m,
            j < old(self).m,
            i != j,
        ensures
            final(self).only_row_changed(
                old(self),
                i as int,
                old(self).row(i as int).union(old(self).row(j as int)),
            ),
    {
        let (a, b) = self.mutable_references(i, j);
        a.union_with(b);
    }

    /// Performs an inplace difference of the bitsets at indices `i` and `j` onto the bitset at index `i`
    pub fn inplace_difference(&mut self, i: usize, j: usize)
        requires
            old(self).wf(),
            i < old(self).m,
            j < old(self).m,
            i != j,
        ensures
            final(self).only_row_changed(
                old(self),
                i as int,
                old(self).row(i as int).difference(old(self).row(j as int)),
            ),
    {
        let (a, b) = self.mutable_references(i, j);
        a.difference_with(b);
    }

    /// Performs an inplace union on self at `i` with the index `j` in another `MultiBitSet`
    pub fn union_with(&mut self, other: &Self, i: usize, j: usize)
        requires
            old(self).wf(),
            other.wf(),
            other.n == old(self).n,
            i < old(self).m,
            j < other.m,
        ensures
            final(self).only_row_changed(
                old(self),
                i as int,
                old(self).row(i as int).union(other.row(j as int)),
            ),
    {
        self.data[i].union_with(&other.data[j]);
    }

    /// Performs an inplace difference on self at `i` with the index `j` in another `MultiBitSet`
    pub fn difference_with(&mut self, other: &Self, i: usize, j: usize)
        requires
            old(self).wf(),
            other.wf(),
            i < old(self).m,
            j < other.m,
        ensures
            final(self).only_row_changed(
                old(self),
                i as int,
                old(self).row(i as int).difference(other.row(j as int)),
            ),
    {
        self.data[i].difference_with(&other.data[j]);
    }

    /// Enables or disables the bits `lo..hi` of row `i`.
    pub fn set_range(&mut self, i: usize, lo: usize, hi: usize, enabled: bool)
        requires
            old(self).wf(),
            i < old(self).m,
            lo <= hi <= old(self).n,
        ensures
            final(self).only_row_changed(
                old(self),
                i as int,
                Set::new(
                    |b: int|
                        if lo <= b < hi {
                            enabled
                        } else {
                            old(self).row(i as int).contains(b)
                        },
                ),
            ),
    {
        set_bit_range(&mut self.data[i], lo, hi, enabled);
    }
}

} // verus!
