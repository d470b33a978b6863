//! The ways in which an operation of the ledger can fail.

use vstd::prelude::*;

verus! {

/// Why an operation did not complete.
#[derive(Clone, Copy, Debug, PartialEq, Eq, Structural)]
pub enum LedgerError {
    /// A record has a malformed or out-of-range field; nothing was hashed or stored.
    EncodingError,
    /// A batch of nodes could not be written; the ledger is as it was before.
    StoreIOError,
    /// A proof was asked for no position, for a position at or past the size, or for
    /// a position that is not a leaf.
    InvalidProofRequest,
    /// The root of a ledger without leaves was asked for.
    EmptyLedger,
    /// The size on record is not the size of any range, or names a node that the
    /// store does not hold.
    CorruptState,
}

} // verus!
