use vstd::prelude::*;

verus! {

/// Errors raised by the shard layers.
#[derive(Debug, Clone, Copy, PartialEq, Eq, Structural)]
pub enum ShardErrors {
    /// The header has no free slot left.
    OutOfPositions,
    /// Writing the slot table or the last-used field failed.
    ErrorAddingHeaderOffset,
    /// The prefix of a shard file does not describe a valid header.
    InvalidHeader,
    /// A slot outside the used range was asked for.
    UnknownEntry,
}

} // verus!
