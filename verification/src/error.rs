//! The failures of this crate.
use vstd::prelude::*;

verus! {

/// Everything that can go wrong when building a tree or writing an index.
#[derive(Debug, Clone, Copy, PartialEq, Eq, Structural)]
pub enum Error {
    /// Pack offsets must only increase, but `current` is not greater than `last`,
    /// the offset of the entry added just before.
    IncreasingOffsetViolation { last: u64, current: u64 },
    /// A delta names a base at `base_offset`, and no entry of the pack starts there.
    DanglingBaseOffset { base_offset: u64 },
    /// More entries were added than the `declared` number the tree was created for.
    CapacityExceeded { declared: usize },
    /// The caller asked to stop between two entries.
    Interrupted,
    /// An index cannot hold `count` objects, as its counters have 32 bits.
    TooManyObjects { count: usize },
    /// An index cannot hold `count` offsets of more than 31 bits, as it refers to them
    /// by numbers of 31 bits.
    TooManyLargeOffsets { count: usize },
    /// An index of no objects cannot be written.
    NoObjects,
}

} // verus!
