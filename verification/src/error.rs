//! Typed errors for every fallible operation of the library. Consistency
//! violations carry the counts and block numbers needed to diagnose them
//! without re-running the operation.

use vstd::prelude::*;

verus! {

#[derive(Clone, Copy, Debug, PartialEq, Eq, Structural)]
pub enum UbtError {
    /// No head record has been persisted yet: nothing canonical to export.
    NoCanonicalState,
    /// Two updates bound one stem to two different addresses, in one batch or
    /// across batches. An address collision signals corruption.
    AddressMismatch,
    /// Stems lacked an address mapping during export; carries how many.
    MissingAddresses { count: u64 },
    /// The index head claims stems exist, but the export produced no entries.
    EmptyIndexWithStems,
    /// A value handed back for an indexed leaf was not 32 bytes.
    InvalidValueLength,
    /// A delta range put its start after its end.
    InvalidRange { from_block: u64, to_block: u64 },
    /// A delta range reached past the persisted head.
    RangeAheadOfHead { to_block: u64, head: u64 },
    /// A delta range started before the retained delta window.
    RangeBeforeRetention { from_block: u64, min_block: u64 },
    /// The external trie engine's persisted head marker does not match the
    /// secondary index's recorded head block.
    HeadMismatch { engine_head: u64, index_head: u64 },
    /// The engine's head marker value was not 8 bytes.
    InvalidEngineHead,
    /// The secondary index holds no head record to check against.
    MissingIndexHead,
}

} // verus!
