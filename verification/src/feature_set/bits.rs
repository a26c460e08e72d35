//! The word-sized bit set that a feature set is made of: a `bitarr::BitSet`
//! over one `u64`, which holds the positions `0..64`.
use vstd::prelude::*;

verus! {

/// The number of positions a word-sized bit set holds.
pub const WIDTH: u32 = 64;

/// A set of positions below [`WIDTH`], kept in a `bitarr::BitSet<u64>`.
#[verifier::external_body]
pub struct BitSet {
    bits: bitarr::BitSet<u64>,
}

impl Clone for BitSet {
    /// `bitarr::BitSet::clone`: a copy of the same bits.
    #[verifier::external_body]
    fn clone(&self) -> (r: Self)
        ensures
            r == *self,
    {
        BitSet { bits: self.bits }
    }
}

impl Copy for BitSet {}

/// The positions a bit set holds.
pub uninterp spec fn positions(b: BitSet) -> Set<nat>;

impl View for BitSet {
    type V = Set<nat>;

    open spec fn view(&self) -> Set<nat> {
        positions(*self)
    }
}

/// The positions of `indices` that fit in a word.
pub open spec fn index_set(indices: Seq<u32>) -> Set<nat> {
    Set::new(|i: nat| i < WIDTH && exists|j: int| 0 <= j < indices.len() && indices[j] == i)
}

impl BitSet {
    /// `bitarr::BitSet::new`: no position is set.
    #[verifier::external_body]
    pub(crate) fn new() -> (r: BitSet)
        ensures
            positions(r) == Set::<nat>::empty(),
    {
        BitSet { bits: bitarr::BitSet::new() }
    }

    /// `bitarr::BitSet::set`: sets `index` and returns whether it was set before;
    /// an index outside the word changes nothing and gives `None`.
    #[verifier::external_body]
    pub(crate) fn set(&mut self, index: u32) -> (was: Option<bool>)
        ensures
            index < WIDTH ==> was == Some(positions(*old(self)).contains(index as nat)) && positions(*final(self)) == positions(*old(self)).insert(index as nat),
            index >= WIDTH ==> was is None && positions(*final(self)) == positions(*old(self)),
    {
        self.bits.set(index)
    }

    /// `bitarr::BitSet::get`: whether `index` is set, `None` outside the word.
    #[verifier::external_body]
    pub(crate) fn get(&self, index: u32) -> (r: Option<bool>)
        ensures
            index < WIDTH ==> r == Some(positions(*self).contains(index as nat)),
            index >= WIDTH ==> r is None,
    {
        self.bits.get(index)
    }

    /// `bitarr::BitSet::union_with`: adds the positions of `other`.
    #[verifier::external_body]
    pub(crate) fn union_with(&mut self, other: &BitSet)
        ensures
            positions(*final(self)) == positions(*old(self)).union(positions(*other)),
    {
        self.bits.union_with(&other.bits)
    }

    /// `bitarr::BitSet::union`: the positions of both sets.
    #[verifier::external_body]
    pub(crate) fn union(&self, other: &BitSet) -> (r: BitSet)
        ensures
            positions(r) == positions(*self).union(positions(*other)),
    {
        BitSet { bits: self.bits.union(&other.bits) }
    }

    /// `bitarr::BitSet::difference_with`: removes the positions of `other`.
    #[verifier::external_body]
    pub(crate) fn difference_with(&mut self, other: &BitSet)
        ensures
            positions(*final(self)) == positions(*old(self)).difference(positions(*other)),
    {
        self.bits.difference_with(&other.bits)
    }

    /// `bitarr::BitSet::is_superset`: whether every position of `other` is set here.
    #[verifier::external_body]
    pub(crate) fn is_superset(&self, other: &BitSet) -> (r: bool)
        ensures
            r == positions(*other).subset_of(positions(*self)),
    {
        self.bits.is_superset(&other.bits)
    }

    /// `PartialEq` of `bitarr::BitSet`: the two sets hold the same positions.
    #[verifier::external_body]
    pub(crate) fn same(&self, other: &BitSet) -> (r: bool)
        ensures
            r == (positions(*self) == positions(*other)),
    {
        self.bits == other.bits
    }

    /// `FromIterator<u32>` of `bitarr::BitSet`: the set of `indices`, each of which
    /// must fit in the word (the collection panics otherwise).
    #[verifier::external_body]
    pub(crate) fn from_indices(indices: Vec<u32>) -> (r: BitSet)
        requires
            forall|i: int| 0 <= i < indices@.len() ==> indices@[i] < WIDTH,
        ensures
            positions(r) == index_set(indices@),
    {
        BitSet { bits: indices.into_iter().collect() }
    }
}

} // verus!
