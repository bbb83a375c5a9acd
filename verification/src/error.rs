//! The ways in which building an account or signing with it can fail.

use vstd::prelude::*;
use vstd::string::*;
use crate::text::{decimal, push_decimal};

verus! {

/// A terminal failure of the library. A signer that fails within a round is
/// no such failure: the round goes on without it.
#[derive(Clone, Copy, Debug, PartialEq, Eq)]
pub enum DirkError {
    /// The bytes given for the composite public key are not a valid key.
    Validation,
    /// The round ended with fewer partial signatures than the threshold.
    InsufficientSignatures {
        /// How many partial signatures were obtained.
        got: usize,
        /// How many the account requires.
        expected: usize,
    },
    /// The partial signatures could not be combined.
    Aggregation,
}

impl DirkError {
    /// The text that describes the failure.
    pub open spec fn message_text(self) -> Seq<char> {
        match self {
            DirkError::Validation => "Invalid composite public key"@,
            DirkError::InsufficientSignatures { got, expected } => {
                "Insufficient signatures: got "@ + decimal(got as nat) + ", expected "@ + decimal(
                    expected as nat,
                )
            },
            DirkError::Aggregation => {
                "Failed to recover the combined signature from partial signatures"@
            },
        }
    }

    /// Describes the failure in words.
    pub fn message(&self) -> (text: String)
        ensures
            text@ == self.message_text(),
    {
        match self {
            DirkError::Validation => String::from_str("Invalid composite public key"),
            DirkError::InsufficientSignatures { got, expected } => {
                let mut text = String::from_str("Insufficient signatures: got ");
                push_decimal(&mut text, *got as u64);
                text.append(", expected ");
                push_decimal(&mut text, *expected as u64);
                text
            },
            DirkError::Aggregation => {
                String::from_str("Failed to recover the combined signature from partial signatures")
            },
        }
    }
}

} // verus!
