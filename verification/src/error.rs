//! What can go wrong in the ledger.

use vstd::prelude::*;
use vstd::string::*;

verus! {

/// The failures that the ledger reports to its caller.
#[derive(Debug, Clone, Copy, PartialEq, Eq, Structural)]
pub enum ChainError {
    /// Stored bytes are no block.
    Serialization,
    /// The stored tip is no UTF-8 text.
    Encoding,
    /// The unspent outputs of the sender come to less than the amount;
    /// `available` is what they come to.
    InsufficientBalance { available: i128 },
    /// The store holds no tip: no chain was created in it.
    MissingChain,
    /// No nonce up to the limit gives a digest below the target.
    NonceExhausted,
}

impl ChainError {
    /// A line of text for the failure.
    pub fn message(&self) -> (t: String)
        ensures
            t@ == match *self {
                ChainError::Serialization => "stored bytes are not a block"@,
                ChainError::Encoding => "stored tip is not valid UTF-8"@,
                ChainError::InsufficientBalance { .. } => "Not enough balance"@,
                ChainError::MissingChain => "Must create a new block database first"@,
                ChainError::NonceExhausted => "no nonce meets the target"@,
            },
    {
        match self {
            ChainError::Serialization => String::from_str("stored bytes are not a block"),
            ChainError::Encoding => String::from_str("stored tip is not valid UTF-8"),
            ChainError::InsufficientBalance { .. } => String::from_str("Not enough balance"),
            ChainError::MissingChain => String::from_str("Must create a new block database first"),
            ChainError::NonceExhausted => String::from_str("no nonce meets the target"),
        }
    }
}

} // verus!
