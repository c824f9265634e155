//! A set of small indices, used for tag components (membership marks a
//! capability on an entity) and backed by `hibitset::BitSet`.
//!
//! The bit set itself is outside code; the handful of operations the core
//! needs are stated over an abstract view of its contents.

use vstd::prelude::*;

verus! {

/// `hibitset::BitSet` as an opaque type: a hierarchical bit set over `u32`
/// indices below `2^24`.
#[verifier::external_type_specification]
#[verifier::external_body]
pub struct ExBitSet(hibitset::BitSet);

/// The set of indices currently present in a `hibitset::BitSet`.
pub uninterp spec fn bits_of(b: hibitset::BitSet) -> Set<u32>;

/// Largest count of indices a `hibitset::BitSet` accepts; adding an index
/// at or above this bound panics in the outside code.
pub const INDEX_LIMIT: u32 = 0x0100_0000;

/// Relies on `hibitset::BitSet::new`: creates an empty set.
#[verifier::external_body]
fn bitset_new() -> (r: hibitset::BitSet)
    ensures
        bits_of(r) == Set::<u32>::empty(),
{
    hibitset::BitSet::new()
}

/// Relies on `hibitset::BitSet::add`: inserts `id` and reports whether it
/// was already present. Panics only for indices above the capacity bound,
/// which the precondition excludes.
#[verifier::external_body]
fn bitset_add(b: &mut hibitset::BitSet, id: u32) -> (r: bool)
    requires
        id < INDEX_LIMIT,
    ensures
        bits_of(*final(b)) == bits_of(*old(b)).insert(id),
        r == bits_of(*old(b)).contains(id),
{
    b.add(id)
}

/// Relies on `hibitset::BitSet::remove`: removes `id` and reports whether
/// it was present.
#[verifier::external_body]
fn bitset_remove(b: &mut hibitset::BitSet, id: u32) -> (r: bool)
    ensures
        bits_of(*final(b)) == bits_of(*old(b)).remove(id),
        r == bits_of(*old(b)).contains(id),
{
    b.remove(id)
}

/// Relies on `hibitset::BitSet::contains`: membership test.
#[verifier::external_body]
fn bitset_contains(b: &hibitset::BitSet, id: u32) -> (r: bool)
    ensures
        r == bits_of(*b).contains(id),
{
    b.contains(id)
}

/// A set of entity ids, seen in contracts as a `Set<u32>`.
pub struct TagSet {
    bits: hibitset::BitSet,
}

impl TagSet {
    /// The mathematical set of ids this tag set holds.
    pub closed spec fn view(&self) -> Set<u32> {
        bits_of(self.bits)
    }

    /// An empty tag set.
    pub fn new() -> (r: TagSet)
        ensures
            r@ == Set::<u32>::empty(),
    {
        TagSet { bits: bitset_new() }
    }

    /// Inserts `id`; reports whether it was already present.
    pub fn insert(&mut self, id: u32) -> (r: bool)
        requires
            id < INDEX_LIMIT,
        ensures
            final(self)@ == old(self)@.insert(id),
            r == old(self)@.contains(id),
    {
        bitset_add(&mut self.bits, id)
    }

    /// Removes `id`; reports whether it was present.
    pub fn remove(&mut self, id: u32) -> (r: bool)
        ensures
            final(self)@ == old(self)@.remove(id),
            r == old(self)@.contains(id),
    {
        bitset_remove(&mut self.bits, id)
    }

    /// Membership test.
    pub fn contains(&self, id: u32) -> (r: bool)
        ensures
            r == self@.contains(id),
    {
        bitset_contains(&self.bits, id)
    }
}

} // verus!
