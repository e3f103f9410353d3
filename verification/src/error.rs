//! The failures that wallet operations report.

use vstd::prelude::*;

verus! {

/// Everything that can go wrong in the wallet core.
#[derive(Clone, Copy, Debug, PartialEq, Eq, Structural)]
pub enum Error {
    /// The wallet location cannot be resolved.
    PathNotFound,
    /// The row store reported an I/O or constraint failure.
    StorageError,
    /// Bytes handed to a decoder are malformed or truncated.
    DecodeError,
    /// A note's claimed coin differs from its recomputed commitment.
    CommitmentMismatch,
    /// The spendable notes cannot cover the requested value.
    InsufficientFunds,
    /// Every position of the commitment tree already holds a leaf.
    TreeFull,
}

impl Error {
    /// Whether the failure aborts start-up rather than a single operation.
    pub fn is_fatal(&self) -> (fatal: bool)
        ensures
            fatal == (*self == Error::PathNotFound),
    {
        match self {
            Error::PathNotFound => true,
            _ => false,
        }
    }
}

} // verus!
