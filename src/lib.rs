//! A proof-of-work ledger with UTXO accounting: transactions, blocks, the block log,
//! the UTXO index, wallets and the submission guard.
pub mod address;
pub mod block;
pub mod blockchain;
pub mod cli;
pub mod contracts;
pub mod encoding;
pub mod error;
pub mod primitives;
pub mod transaction;
pub mod tx;
pub mod utxoset;
pub mod wallet;
