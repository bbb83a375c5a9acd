//! Threshold signing against a distributed Dirk account: the account's quorum
//! configuration, the decisions of one signing round, and the recombination of
//! partial BLS signatures into the composite signature.

pub mod bls;
pub mod distributed;
pub mod endpoint;
pub mod engine_hints;
pub mod error;
pub mod interpolation;
pub mod lagrange;
pub mod protocol;
pub mod recover_signature;
pub mod scalar;
pub mod telemetry;
pub mod text;
pub mod threshold;
