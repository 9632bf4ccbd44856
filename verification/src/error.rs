//! Failures reported by the library.

use vstd::prelude::*;

verus! {

/// Failures of the data model.
#[derive(Clone, Copy, Debug, PartialEq, Eq, Structural)]
pub enum ModelsError {
    /// A text is not the Base58Check form of a 32-byte hash.
    HashError,
    /// The period after `u64::MAX` was asked for.
    PeriodOverflowError,
}

/// Which part of an encoded value a reader rejected.
#[derive(Clone, Copy, Debug, PartialEq, Eq, Structural)]
pub enum DeserializeError {
    /// The slot is cut short, not minimally encoded, or names a thread that
    /// does not exist.
    Slot,
    /// The index is cut short, not minimally encoded, or out of range.
    Index,
    /// Fewer than 32 bytes are left for a hash.
    Hash,
    /// A public key or a signature is cut short.
    Key,
    /// A count is cut short, not minimally encoded, or out of range.
    Count,
    /// The kind of an operation is unknown, or its amount is cut short, not
    /// minimally encoded, or does not fit 64 bits.
    Operation,
}

/// Failures of the consensus worker.
#[derive(Clone, Copy, Debug, PartialEq, Eq, Structural)]
pub enum ConsensusError {
    /// Stepping from one slot to the next would pass period `u64::MAX`.
    SlotOverflowError,
    /// An instant does not fit 64 bits of milliseconds, or the slot
    /// duration is shorter than one millisecond per thread.
    TimeOverflowError,
    /// The selector cannot be built from the given seed and weights.
    SelectionError,
    /// The configuration names no thread, two genesis blocks have the same
    /// hash, or the graph has other threads than the configuration.
    ConfigError,
}

} // verus!
