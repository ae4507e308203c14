//! A set of small indices, backed by the `bit_set` crate.
//!
//! The parsers use it for the defined-bit vectors of the metadata format:
//! which pack streams carry a CRC, which files have no stream, and so on.
//! The backing `bit_set::BitSet` is opaque to the verifier; its contents are
//! named by `index_set_elems`, and each method's contract states over that
//! name what the crate's source shows.
use vstd::prelude::*;

verus! {

/// A set of `usize` indices. Holds a `bit_set::BitSet`, which Verus cannot
/// model directly; `index_set_elems` names what it contains.
#[derive(Debug)]
#[verifier::external_body]
pub struct IndexSet {
    inner: bit_set::BitSet,
}

/// The indices that an `IndexSet` holds.
pub uninterp spec fn index_set_elems(s: IndexSet) -> Set<int>;

impl IndexSet {
    /// Relies on `bit_set::BitSet::new`: a fresh set holds nothing.
    #[verifier::external_body]
    pub fn new() -> (s: IndexSet)
        ensures
            index_set_elems(s) == Set::<int>::empty(),
    {
        IndexSet { inner: bit_set::BitSet::new() }
    }

    /// Relies on `bit_set::BitSet::with_capacity`: the set starts with no
    /// contents, whatever room it reserves.
    #[verifier::external_body]
    pub fn with_capacity(nbits: usize) -> (s: IndexSet)
        ensures
            index_set_elems(s) == Set::<int>::empty(),
    {
        IndexSet { inner: bit_set::BitSet::with_capacity(nbits) }
    }

    /// Relies on `bit_set::BitSet::insert`: adds the value, keeps the rest.
    /// The backing bit vector grows to `value + 1` bits, so the one index
    /// whose successor does not fit a `usize` is excluded.
    #[verifier::external_body]
    pub fn insert(&mut self, value: usize)
        requires
            value < usize::MAX,
        ensures
            index_set_elems(*final(self)) == index_set_elems(*old(self)).insert(value as int),
    {
        self.inner.insert(value);
    }

    /// Relies on `bit_set::BitSet::contains`: membership of the value.
    #[verifier::external_body]
    pub fn contains(&self, value: usize) -> (r: bool)
        ensures
            r == index_set_elems(*self).contains(value as int),
    {
        self.inner.contains(value)
    }

    /// Relies on `bit_set::BitSet::count`: the number of set bits.
    #[verifier::external_body]
    pub fn count(&self) -> (r: usize)
        ensures
            index_set_elems(*self).finite() ==> r == index_set_elems(*self).len(),
    {
        self.inner.count()
    }
}

} // verus!
