//! The error kinds of the ledger.
use vstd::prelude::*;

verus! {

/// What can go wrong in the ledger.
#[derive(Debug, Clone)]
pub enum LedgerError {
    /// The block log was opened before a chain was created.
    ChainMissing,
    /// The sender or the recipient is not in the wallet store.
    UnknownWallet,
    /// Text that is not a valid address.
    InvalidAddress,
    /// The sender's spendable outputs do not cover the amount; holds what they do cover.
    InsufficientFunds(i64),
    /// An input refers to a transaction, or an output of it, that cannot be found.
    MissingPrevTx(String),
    /// A transaction's signatures do not verify.
    BadSignature,
    /// The sender must wait this many more seconds before submitting again.
    RateLimited(u64),
    /// Stored data is malformed, or a request does not fit what the log can hold.
    StorageError,
    /// The clock reads earlier than the Unix epoch.
    ClockUnavailable,
    /// The operating system's source of random bytes failed.
    RandomnessUnavailable,
    /// No transaction with the requested id is in the chain.
    NotFound,
    /// No nonce up to the largest one gives a hash that meets the difficulty.
    NonceExhausted,
    /// A transfer spends an output that is already spent, or its values do not balance.
    InvalidTransaction,
}

} // verus!
