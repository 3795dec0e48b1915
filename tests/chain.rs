use blockchain::block::Block;
use blockchain::blockchain::Blockchain;
use blockchain::cli::{get_balance, send, SUBMIT_INTERVAL_SECONDS};
use blockchain::contracts::RateLimitContract;
use blockchain::error::LedgerError;
use blockchain::transaction::Transaction;
use blockchain::utxoset::{UTXOSet, UtxoIndex};
use blockchain::wallet::{hash_pub_key, Wallets};

fn setup() -> (UTXOSet, Wallets, String, String) {
    let mut wallets = Wallets::new(vec![]);
    let a = wallets.create_wallet().unwrap();
    let b = wallets.create_wallet().unwrap();
    let bc = Blockchain::create_blockchain(a.clone()).unwrap();
    let mut set = UTXOSet { blockchain: bc, index: UtxoIndex::empty() };
    set.reindex();
    (set, wallets, a, b)
}

fn balance(set: &UTXOSet, addr: &str) -> i128 {
    get_balance(set, addr).unwrap()
}

#[test]
fn genesis_pays_the_creator() {
    let (set, _, a, b) = setup();
    assert_eq!(balance(&set, &a), 100);
    assert_eq!(balance(&set, &b), 0);
    assert_eq!(set.count_transactions(), 1);
    assert_eq!(set.blockchain.get_best_height(), 0);
    let blocks = set.blockchain.get_blocks();
    assert_eq!(blocks.len(), 1);
    let genesis = &blocks[0];
    assert!(genesis.validate());
    assert!(genesis.get_hash().starts_with("0000"));
    assert_eq!(genesis.get_hash(), genesis.generate_hash());
    assert_eq!(genesis.get_previous_hash(), "");
    assert_eq!(genesis.get_height(), 0);
    let cb = &genesis.get_transactions()[0];
    assert!(cb.is_coinbase());
    assert_eq!(cb.vin[0].pub_key, b"This is the Genesis Block".to_vec());
}

#[test]
fn send_moves_value_and_rewards_sender() {
    let (mut set, wallets, a, b) = setup();
    let mut guard = RateLimitContract::new(SUBMIT_INTERVAL_SECONDS);
    let block = send(&mut set, &wallets, &mut guard, &a, &b, 30, 1_000).unwrap();
    assert_eq!(balance(&set, &a), 170);
    assert_eq!(balance(&set, &b), 30);
    assert_eq!(block.get_height(), 1);
    assert_eq!(set.blockchain.get_best_height(), 1);
    let hashes = set.blockchain.get_block_hashes();
    assert_eq!(hashes.len(), 2);
    assert_eq!(hashes[0], block.get_hash());
    assert_eq!(block.get_previous_hash(), hashes[1]);
    let transfer = &block.get_transactions()[1];
    assert!(!transfer.is_coinbase());
    assert!(set.blockchain.verify_transaction(transfer).unwrap());
    assert_eq!(transfer.vout.len(), 2);
    assert_eq!(transfer.vout[0].value, 30);
    assert_eq!(transfer.vout[1].value, 70);
}

#[test]
fn send_beyond_balance_fails() {
    let (mut set, wallets, a, b) = setup();
    let mut guard = RateLimitContract::new(SUBMIT_INTERVAL_SECONDS);
    let r = send(&mut set, &wallets, &mut guard, &a, &b, 999, 1_000);
    assert!(matches!(r, Err(LedgerError::InsufficientFunds(100))));
    assert_eq!(balance(&set, &a), 100);
    assert_eq!(set.blockchain.get_best_height(), 0);
}

#[test]
fn second_send_within_interval_is_rate_limited() {
    let (mut set, wallets, a, b) = setup();
    let mut guard = RateLimitContract::new(SUBMIT_INTERVAL_SECONDS);
    send(&mut set, &wallets, &mut guard, &a, &b, 1, 5_000).unwrap();
    let tip = set.blockchain.get_block_hashes()[0].clone();
    let r = send(&mut set, &wallets, &mut guard, &a, &b, 1, 5_100);
    assert!(matches!(r, Err(LedgerError::RateLimited(200))));
    assert_eq!(set.blockchain.get_block_hashes()[0], tip);
    assert_eq!(set.blockchain.get_best_height(), 1);
}

#[test]
fn reindex_agrees_with_incremental_updates() {
    let (mut set, wallets, a, b) = setup();
    let mut guard = RateLimitContract::new(SUBMIT_INTERVAL_SECONDS);
    send(&mut set, &wallets, &mut guard, &a, &b, 30, 1_000).unwrap();
    let count = set.count_transactions();
    let (bal_a, bal_b) = (balance(&set, &a), balance(&set, &b));
    set.reindex();
    assert_eq!(set.count_transactions(), count);
    assert_eq!(balance(&set, &a), bal_a);
    assert_eq!(balance(&set, &b), bal_b);
    let direct = set.blockchain.find_utxo();
    assert_eq!(direct.len(), set.index.records().len());
    for (x, y) in direct.iter().zip(set.index.records().iter()) {
        assert_eq!(x.0, y.0);
        assert_eq!(x.1.outputs.len(), y.1.outputs.len());
    }
}

#[test]
fn find_utxo_keeps_output_positions() {
    let (mut set, wallets, a, b) = setup();
    let mut guard = RateLimitContract::new(SUBMIT_INTERVAL_SECONDS);
    let block = send(&mut set, &wallets, &mut guard, &a, &b, 30, 1_000).unwrap();
    let transfer_id = block.get_transactions()[1].id.clone();
    let utxos = set.blockchain.find_utxo();
    let rec = utxos.iter().find(|r| r.0 == transfer_id).unwrap();
    assert_eq!(rec.1.outputs.len(), 2);
    assert_eq!(rec.1.outputs[0].vout, 0);
    assert_eq!(rec.1.outputs[1].vout, 1);
    let blocks = set.blockchain.get_blocks();
    let genesis_cb = &blocks[1].get_transactions()[0];
    assert!(utxos.iter().all(|r| r.0 != genesis_cb.id));
}

#[test]
fn spendable_selection_stops_once_covered() {
    let (set, wallets, a, _) = setup();
    let mut pkh = wallets.get_wallet(&a).unwrap().public_key.clone();
    hash_pub_key(&mut pkh);
    let (acc, sel) = set.find_spendable_outputs(&pkh, 10);
    assert_eq!(acc, 100);
    assert_eq!(sel.len(), 1);
    assert_eq!(sel[0].1, 0);
    let (acc0, sel0) = set.find_spendable_outputs(&pkh, 0);
    assert_eq!(acc0, 0);
    assert!(sel0.is_empty());
    let found = set.find_utxos(&pkh);
    assert_eq!(found.outputs.len(), 1);
    assert_eq!(found.outputs[0].output.value, 100);
}

#[test]
fn unknown_wallets_are_refused() {
    let (set, wallets, a, _) = setup();
    let stranger = Wallets::new(vec![]).create_wallet().unwrap();
    assert!(matches!(Transaction::new_utxo(&stranger, &a, 1, &set, &wallets), Err(LedgerError::UnknownWallet)));
    assert!(matches!(Transaction::new_utxo(&a, &stranger, 1, &set, &wallets), Err(LedgerError::UnknownWallet)));
}

#[test]
fn find_transaction_in_chain() {
    let (set, _, _, _) = setup();
    let blocks = set.blockchain.get_blocks();
    let id = blocks[0].get_transactions()[0].id.clone();
    let found = set.blockchain.find_transaction(&id).unwrap();
    assert_eq!(found.id, id);
    assert!(matches!(set.blockchain.find_transaction(&String::from("missing")), Err(LedgerError::NotFound)));
}

#[test]
fn reopen_from_blocks() {
    let (set, _, _, _) = setup();
    let blocks = set.blockchain.get_blocks();
    let reopened = Blockchain::new(blocks.clone()).unwrap();
    assert_eq!(reopened.get_block_hashes(), set.blockchain.get_block_hashes());
    assert!(matches!(Blockchain::new(vec![]), Err(LedgerError::ChainMissing)));
    let mut it = reopened.iter();
    assert_eq!(it.next().unwrap().get_hash(), blocks[0].get_hash());
    assert!(it.next().is_none());
}

#[test]
fn tampered_nonce_fails_validation() {
    let (set, _, _, _) = setup();
    let mut block = set.blockchain.get_blocks()[0].clone();
    block.nonce ^= 1;
    assert!(!block.validate());
    assert!(matches!(Blockchain::new(vec![block]), Err(LedgerError::StorageError)));
}

#[test]
fn mining_from_the_last_nonce_is_exhausted_or_valid() {
    let (set, _, _, _) = setup();
    let mut block = set.blockchain.get_blocks()[0].clone();
    block.nonce = i32::MAX;
    let before = block.clone();
    match block.run_proof_of_work() {
        Ok(()) => assert!(block.validate()),
        Err(e) => {
            assert!(matches!(e, LedgerError::NonceExhausted));
            assert_eq!(block.nonce, before.nonce);
        }
    }
}

#[test]
fn new_block_is_mined() {
    let (set, _, a, _) = setup();
    let cb = Transaction::new_coinbase(a.clone(), String::from("x")).unwrap();
    let tip = set.blockchain.get_block_hashes()[0].clone();
    let block = Block::new(vec![cb], tip.clone(), 1).unwrap();
    assert!(block.validate());
    assert!(block.get_hash().starts_with("0000"));
    assert_eq!(block.get_previous_hash(), tip);
    let data = block.prepare_hash_data();
    assert_eq!(&data[data.len() - 4..], &block.nonce.to_le_bytes());
}

#[test]
fn add_block_refuses_a_block_without_coinbase() {
    let (mut set, _, _, _) = setup();
    assert!(matches!(set.blockchain.add_block(vec![]), Err(LedgerError::StorageError)));
    assert_eq!(set.blockchain.get_best_height(), 0);
}

#[test]
fn invalid_balance_address() {
    let (set, _, _, _) = setup();
    assert!(matches!(get_balance(&set, "bogus"), Err(LedgerError::InvalidAddress)));
}

#[test]
fn index_and_reindex_agree_after_two_sends() {
    let (mut set, wallets, a, b) = setup();
    let mut guard = RateLimitContract::new(0);
    send(&mut set, &wallets, &mut guard, &a, &b, 10, 1_000).unwrap();
    send(&mut set, &wallets, &mut guard, &a, &b, 10, 2_000).unwrap();
    let incremental = (get_balance(&set, &a).unwrap(), get_balance(&set, &b).unwrap());
    set.reindex();
    assert_eq!(get_balance(&set, &b).unwrap(), 20);
    assert_eq!(get_balance(&set, &a).unwrap(), incremental.0);
    assert_eq!(get_balance(&set, &a).unwrap() + get_balance(&set, &b).unwrap(), 300);
    let mut pkh = wallets.get_wallet(&a).unwrap().public_key.clone();
    hash_pub_key(&mut pkh);
    let (_, sel) = set.find_spendable_outputs(&pkh, 1_000);
    for x in 0..sel.len() {
        for y in 0..x {
            assert!(sel[x] != sel[y]);
        }
    }
    assert_eq!(incremental.1, 20);
}

#[test]
fn stored_index_with_a_repeated_position_is_refused() {
    let (set, _, _, _) = setup();
    let mut records = set.index.records().clone();
    let dup = records[0].1.outputs[0].clone();
    records[0].1.outputs.push(dup);
    assert!(matches!(UtxoIndex::new(records), Err(LedgerError::StorageError)));
    let mut twice = set.index.records().clone();
    twice.push(twice[0].clone());
    assert!(matches!(UtxoIndex::new(twice), Err(LedgerError::StorageError)));
    assert!(UtxoIndex::new(set.index.records().clone()).is_ok());
}

#[test]
fn unspent_transactions_per_address() {
    let (mut set, wallets, a, b) = setup();
    let mut guard = RateLimitContract::new(SUBMIT_INTERVAL_SECONDS);
    let block = send(&mut set, &wallets, &mut guard, &a, &b, 30, 1_000).unwrap();
    let reward_id = block.get_transactions()[0].id.clone();
    let transfer_id = block.get_transactions()[1].id.clone();
    let mut pkh_a = wallets.get_wallet(&a).unwrap().public_key.clone();
    hash_pub_key(&mut pkh_a);
    let mut pkh_b = wallets.get_wallet(&b).unwrap().public_key.clone();
    hash_pub_key(&mut pkh_b);
    let for_a: Vec<String> = set.blockchain.find_unspent_transactions(&pkh_a).into_iter().map(|t| t.id).collect();
    assert_eq!(for_a, vec![reward_id, transfer_id.clone()]);
    let for_b: Vec<String> = set.blockchain.find_unspent_transactions(&pkh_b).into_iter().map(|t| t.id).collect();
    assert_eq!(for_b, vec![transfer_id]);
    assert_eq!(set.blockchain.scan().len(), 3);
}
