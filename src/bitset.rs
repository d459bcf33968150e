//! Trusted interface to `bit_set::BitSet`, the visited-set representation of
//! a partial tour. Its contents are modelled as a finite set of `usize`.
use vstd::prelude::*;

verus! {

/// A set of city indices held in a `bit_set::BitSet`. The bit set is kept
/// in a private field; Verus sees the set only through `bitset_contents`.
#[verifier::external_body]
#[derive(Debug, PartialEq, Eq, Hash)]
pub struct CitySet {
    bits: bit_set::BitSet,
}

/// The integers held by a city set.
pub uninterp spec fn bitset_contents(s: CitySet) -> Set<usize>;

/// Relies on `BitSet::new`: it creates a set with no contents.
#[verifier::external_body]
pub(crate) fn bitset_new() -> (r: CitySet)
    ensures
        bitset_contents(r) == Set::<usize>::empty(),
{
    CitySet { bits: bit_set::BitSet::new() }
}

/// Relies on `BitSet::insert`: it adds `value` and leaves every other member
/// as it was. Values are kept to `u32` so that growing the underlying bit
/// vector never overflows.
#[verifier::external_body]
pub(crate) fn bitset_insert(s: &mut CitySet, value: usize)
    requires
        value <= u32::MAX,
    ensures
        bitset_contents(*final(s)) == bitset_contents(*old(s)).insert(value),
{
    s.bits.insert(value);
}

/// Relies on `BitSet::contains`: membership test.
#[verifier::external_body]
pub(crate) fn bitset_contains(s: &CitySet, value: usize) -> (r: bool)
    ensures
        r == bitset_contents(*s).contains(value),
{
    s.bits.contains(value)
}

impl Clone for CitySet {
    /// Relies on `BitSet`'s `Clone`, which copies the underlying bit vector.
    #[verifier::external_body]
    fn clone(&self) -> (r: CitySet)
        ensures
            bitset_contents(r) == bitset_contents(*self),
    {
        CitySet { bits: self.bits.clone() }
    }
}

/// Relies on `BitSet`'s `PartialEq`, which compares the members in
/// increasing order, so two sets are equal exactly when they hold the same
/// integers.
#[verifier::external_body]
pub(crate) fn bitset_eq(a: &CitySet, b: &CitySet) -> (r: bool)
    ensures
        r == (bitset_contents(*a) == bitset_contents(*b)),
{
    a.bits == b.bits
}

} // verus!
