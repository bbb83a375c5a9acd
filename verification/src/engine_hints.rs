//! Hints that an execution engine's error messages give on the block being
//! built. When the engine rejects a payload it names the value it expected;
//! the builder reads that value from the message and tries again.

use vstd::prelude::*;

verus! {

/// A value that an engine's error message gives away.
#[derive(Clone, Debug, PartialEq, Eq)]
pub enum EngineApiHint {
    /// The block hash that the engine expected.
    BlockHash([u8; 32]),
    /// The gas that the engine found the block to use.
    GasUsed(u64),
    /// The state root that the engine expected.
    StateRoot([u8; 32]),
    /// The receipts root that the engine expected.
    ReceiptsRoot([u8; 32]),
    /// The logs bloom that the engine expected.
    LogsBloom([u8; 256]),
    /// The engine accepted the payload: nothing is left to correct.
    ValidPayload,
}

/// Why a block could not be built.
#[derive(Clone, Debug, PartialEq, Eq)]
pub enum BuilderError {
    /// The engine's message names a value that cannot be read.
    InvalidEngineHint(String),
    /// The engine's message is of a kind that gives no hint.
    UnsupportedEngineHint(String),
}

/// Parse a hinted value from a Nethermind engine's error message, such as
/// `local: blockhash mismatch: got 0x... expected 0x...`.
///
/// No message of Nethermind is read yet: every message is taken to hold no
/// hint.
pub fn parse_nethermind_engine_error_hint(error: &str) -> (hint: Result<
    Option<EngineApiHint>,
    BuilderError,
>)
    ensures
        hint == Ok::<Option<EngineApiHint>, BuilderError>(None),
{
    Ok(None)
}

} // verus!
