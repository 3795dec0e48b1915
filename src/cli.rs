//! The ledger's commands as operations on the chain, the index, the wallets and the guard.
use vstd::prelude::*;
use vstd::string::StringExecFns;
use crate::address::{address_body_of, decode_address, is_plain_text};
use crate::block::Block;
use crate::contracts::{elapsed, RateLimitContract};
use crate::error::LedgerError;
use crate::transaction::{coinbase_model, transfer_outcome, Transaction};
use crate::tx::OutputModel;
use crate::blockchain::{block_shape, scan_order, spends_ok};
use crate::transaction::{txs_view, TxModel};
use crate::utxoset::{applies, apply_txs, entries_of, locked_to, UTXOSet};
use crate::wallet::Wallets;

verus! {

/// The interval, in seconds, that the guard asks between two submissions from one address.
pub const SUBMIT_INTERVAL_SECONDS: u64 = 300;

/// The start of the data of the coinbase that rewards a sender; the hash of the block
/// it follows completes it, so that no two rewards are the same transaction.
pub const SEND_REWARD_DATA: &'static str = "Reward!";

/// The data of the coinbase that rewards a sender in the block after `tip_hash`.
pub open spec fn reward_data(tip_hash: Seq<char>) -> Seq<char> {
    SEND_REWARD_DATA@ + tip_hash
}

/// The sum of the values of some outputs.
pub open spec fn sum_values(s: Seq<(i32, OutputModel)>) -> int
    decreases s.len(),
{
    if s.len() == 0 { 0 } else { sum_values(s.drop_last()) + s.last().1.value }
}

/// The front end of the ledger.
pub struct Cli {}

impl Cli {
    pub fn new() -> (r: Result<Cli, LedgerError>)
        ensures
            r is Ok,
    {
        Ok(Cli {})
    }
}

/// The balance of `address`: the sum of the values of the outputs in the index locked to
/// the public-key hash it names. `InvalidAddress` when it names none.
pub fn get_balance(utxo_set: &UTXOSet, address: &str) -> (r: Result<i128, LedgerError>)
    ensures
        match r {
            Ok(b) => is_plain_text(address@) && address_body_of(address@) is Some && b == sum_values(
                locked_to(entries_of(utxo_set.index@), address_body_of(address@).unwrap()),
            ),
            Err(e) => e is InvalidAddress && (!is_plain_text(address@) || address_body_of(address@) is None),
        },
{
    let pub_key_hash = match decode_address(address) {
        Ok(b) => b,
        Err(e) => return Err(e),
    };
    let utxos = utxo_set.find_utxos(pub_key_hash.as_slice());
    let mut balance: i128 = 0;
    let mut i: usize = 0;
    while i < utxos.outputs.len()
        invariant
            i <= utxos@.len(),
            utxos@.len() == utxos.outputs@.len(),
            balance == sum_values(utxos@.subrange(0, i as int)),
            -0x8000_0000 * (i as int) <= balance <= 0x7fff_ffff * (i as int),
        decreases utxos@.len() - i,
    {
        proof {
            let next = utxos@.subrange(0, i + 1);
            assert(next.drop_last() =~= utxos@.subrange(0, i as int));
            assert(next.last() == utxos.outputs@[i as int]@);
        }
        balance = balance + utxos.outputs[i].output.value as i128;
        i = i + 1;
    }
    assert(utxos@.subrange(0, i as int) =~= utxos@);
    Ok(balance)
}

/// The guard refuses a submission from `from` at time `now`.
pub open spec fn rate_limited(guard: RateLimitContract, from: Seq<char>, now: u64) -> bool {
    let times = guard.spec_times();
    times.contains_key(from) && elapsed(now, times[from]) < guard.minimum_interval_seconds
}

/// The block that `send` mines after `tip_hash` for the transfer `t`: a coinbase rewarding
/// `from`, then `t`.
pub open spec fn send_block_txs(tip_hash: Seq<char>, from: Seq<char>, t: TxModel) -> Seq<TxModel> {
    seq![coinbase_model(reward_data(tip_hash), address_body_of(from).unwrap()), t]
}

/// `new_utxo`'s outcome is one: where some transfer meets it, any result meeting it is that
/// transfer.
proof fn lemma_transfer_outcome_unique(
    r: Result<Transaction, LedgerError>,
    t: Transaction,
    to: Seq<char>,
    from: Seq<char>,
    amount: i32,
    bc: &UTXOSet,
    wallets: &Wallets,
)
    requires
        transfer_outcome(Ok(t), to, from, amount, bc, wallets),
        transfer_outcome(r, to, from, amount, bc, wallets),
    ensures
        r matches Ok(x) && x@ == t@,
{
}

/// A send that the guard admits, whose transfer is valid, and whose block can follow the
/// chain and be taken into the index.
pub open spec fn send_can_succeed(
    utxo_set: UTXOSet,
    wallets: &Wallets,
    guard: RateLimitContract,
    from: Seq<char>,
    to: Seq<char>,
    amount: i32,
    now: u64,
) -> bool {
    &&& !rate_limited(guard, from, now)
    &&& is_plain_text(from)
    &&& address_body_of(from) is Some
    &&& utxo_set.blockchain@.len() < i32::MAX
    &&& exists|t: Transaction| #[trigger] transfer_outcome(Ok(t), to, from, amount, &utxo_set, wallets) && {
        let txs = send_block_txs(utxo_set.blockchain@.last().hash, from, t@);
        &&& applies(utxo_set.index@, txs)
        &&& block_shape(txs)
        &&& spends_ok(scan_order(utxo_set.blockchain@), txs)
    }
}

/// Submits a transfer of `amount` from `from` to `to` at time `now` (seconds): the guard
/// admits it and records `now`, the transfer is built and signed, a block of a coinbase
/// rewarding `from` and the transfer is mined onto the chain, and the index takes the block
/// in. A failure leaves the chain and the index as they were.
pub fn send(
    utxo_set: &mut UTXOSet,
    wallets: &Wallets,
    guard: &mut RateLimitContract,
    from: &str,
    to: &str,
    amount: i32,
    now: u64,
) -> (r: Result<Block, LedgerError>)
    requires
        amount >= 0,
    ensures
        final(guard).minimum_interval_seconds == old(guard).minimum_interval_seconds,
        rate_limited(*old(guard), from@, now) ==> (r matches Err(e) && e is RateLimited)
            && final(guard).spec_times() == old(guard).spec_times(),
        !rate_limited(*old(guard), from@, now) ==> final(guard).spec_times() == old(guard).spec_times().insert(from@, now)
            && !(r matches Err(e) && e is RateLimited),
        r is Err ==> final(utxo_set).blockchain@ == old(utxo_set).blockchain@
            && final(utxo_set).index@ == old(utxo_set).index@,
        !rate_limited(*old(guard), from@, now) && (forall|t: Transaction| !#[trigger] transfer_outcome(Ok(t), to@, from@, amount, &*old(utxo_set), wallets))
            ==> (r matches Err(e) && transfer_outcome(Err(e), to@, from@, amount, &*old(utxo_set), wallets)),
        match r {
            Err(e) => e is StorageError ==> transfer_outcome(Err(e), to@, from@, amount, &*old(utxo_set), wallets)
                || exists|t: Transaction| #[trigger] transfer_outcome(Ok(t), to@, from@, amount, &*old(utxo_set), wallets)
                && (!applies(old(utxo_set).index@, send_block_txs(old(utxo_set).blockchain@.last().hash, from@, t@)) || !block_shape(send_block_txs(old(utxo_set).blockchain@.last().hash, from@, t@))
                || old(utxo_set).blockchain@.len() >= i32::MAX),
            Ok(_) => true,
        },
        send_can_succeed(*old(utxo_set), wallets, *old(guard), from@, to@, amount, now) ==> r is Ok
            || (r matches Err(e) && (e is ClockUnavailable || e is NonceExhausted)),
        r matches Ok(b) ==> {
            &&& final(utxo_set).blockchain@ == old(utxo_set).blockchain@.push(b@)
            &&& b@.transactions.len() == 2
            &&& b@.transactions == send_block_txs(old(utxo_set).blockchain@.last().hash, from@, b.transactions@[1]@)
            &&& transfer_outcome(Ok(b.transactions@[1]), to@, from@, amount, &*old(utxo_set), wallets)
            &&& applies(old(utxo_set).index@, b@.transactions)
            &&& final(utxo_set).index@ == apply_txs(old(utxo_set).index@, b@.transactions).unwrap()
        },
{
    match guard.execute_at(from, now) {
        Ok(()) => {},
        Err(e) => return Err(e),
    }
    let r0 = Transaction::new_utxo(to, from, amount, utxo_set, wallets);
    proof {
        if send_can_succeed(*old(utxo_set), wallets, *old(guard), from@, to@, amount, now) {
            let t = choose|t: Transaction| #[trigger] transfer_outcome(Ok(t), to@, from@, amount, &*old(utxo_set), wallets) && {
                let txs = send_block_txs(old(utxo_set).blockchain@.last().hash, from@, t@);
                &&& applies(old(utxo_set).index@, txs)
                &&& block_shape(txs)
                &&& spends_ok(scan_order(old(utxo_set).blockchain@), txs)
            };
            lemma_transfer_outcome_unique(r0, t, to@, from@, amount, &*old(utxo_set), wallets);
        }
    }
    let tx = match r0 {
        Ok(t) => t,
        Err(e) => return Err(e),
    };
    let ghost transfer = tx;
    assert(transfer_outcome(Ok(transfer), to@, from@, amount, &*old(utxo_set), wallets));
    let tip = utxo_set.blockchain.tip_hash();
    let data = String::from_str(SEND_REWARD_DATA).concat(tip.as_str());
    proof { reveal_strlit("Reward!"); }
    let cbtx = match Transaction::new_coinbase(String::from_str(from), data) {
        Ok(t) => t,
        Err(e) => return Err(e),
    };
    let txs = vec![cbtx, tx];
    assert(txs_view(txs@) =~= send_block_txs(old(utxo_set).blockchain@.last().hash, from@, transfer@));
    let new_index = match utxo_set.index.apply(&txs) {
        Some(ix) => ix,
        None => return Err(LedgerError::StorageError),
    };
    let block = match utxo_set.blockchain.add_block(txs) {
        Ok(b) => b,
        Err(e) => return Err(e),
    };
    utxo_set.index = new_index;
    Ok(block)
}

} // verus!
