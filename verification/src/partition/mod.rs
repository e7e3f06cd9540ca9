//! Groups of connected occupied cells: each partition of a grid is one connected group of its
//! occupied cells, disconnected from all other occupied cells.

pub mod change_tracking;
pub mod components;
pub mod growth;
pub mod map;
pub mod private;

use vstd::prelude::*;

verus! {

/// Uniquely identifies a [`Partition`](private::Partition) in a
/// [`PartitionLookup`](map::PartitionLookup).
#[derive(Clone, Copy, Debug, PartialEq, Eq, Hash, Structural)]
pub struct PartitionId(pub(crate) u64);

impl PartitionId {
    /// The number that this identifier wraps.
    pub closed spec fn bits(self) -> u64 {
        self.0
    }

    /// Two identifiers are equal exactly when they wrap the same number.
    pub proof fn lemma_bits(a: PartitionId, b: PartitionId)
        ensures
            a == b <==> a.bits() == b.bits(),
    {
    }

    /// Wraps a number as an identifier.
    pub(crate) fn new(bits: u64) -> (r: Self)
        ensures
            r.bits() == bits,
    {
        PartitionId(bits)
    }

    /// The inner partition id.
    pub fn id(&self) -> (r: u64)
        ensures
            r == self.bits(),
    {
        self.0
    }
}

} // verus!
